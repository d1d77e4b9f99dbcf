//! Planning: which slices of which part files make up which segment.
//!
//! The plan decides, up front and deterministically, which records make up which segment, so that
//! segments can be built one at a time, on any machine, by streaming their parts through. Segment
//! sizes are evened out over as few segments as the size ceiling allows, which keeps every segment
//! of a shard that has more than one of them at half the ceiling or above.
use vstd::prelude::*;
use vstd::string::*;
use crate::building;
use crate::cli;
use crate::config;
use crate::config::{CollectionConfig, LoadedConfig, VectorParams};
use crate::dense_codec::VectorStorageDatatype;
use crate::frames::PartMeta;
use crate::gates;
use crate::ids;
use crate::ring::ShardRouter;
use crate::text;

verus! {

/// A contiguous run of records within one part file.
#[derive(Debug)]
pub struct PartSlice {
    /// Part file name, relative to the shard's scatter directory.
    pub part: String,
    /// Records to skip before reading.
    pub skip: u64,
    /// Records to read.
    pub take: u64,
}

/// One segment's worth of work.
#[derive(Debug)]
pub struct SegmentPlan {
    /// Position within the shard.
    pub seq: usize,
    /// Pinned so a rebuild produces the same directory name.
    pub uuid: u128,
    /// Slices of part files making up this segment, in order.
    pub parts: Vec<PartSlice>,
    pub points: u64,
    /// Estimated vector-storage bytes.
    pub vector_bytes: u64,
}

/// What a slice says: the part, the records to skip, the records to read.
pub struct SliceView {
    pub part: Seq<char>,
    pub skip: nat,
    pub take: nat,
}

impl PartSlice {
    pub open spec fn view(self) -> SliceView {
        SliceView { part: self.part@, skip: self.skip as nat, take: self.take as nat }
    }
}

/// What the slices of a list say.
pub open spec fn slices_view(slices: Seq<PartSlice>) -> Seq<SliceView> {
    Seq::new(slices.len(), |i: int| slices[i]@)
}

/// The parts of a shard: each by its name and the number of its records. Planning looks at nothing
/// else of a part, so its size in bytes does not reach a plan.
pub open spec fn parts_view(parts: Seq<(String, PartMeta)>) -> Seq<(Seq<char>, nat)> {
    Seq::new(parts.len(), |i: int| (parts[i].0@, parts[i].1.records as nat))
}

/// The number of records in the parts.
pub open spec fn total_records(parts: Seq<(Seq<char>, nat)>) -> nat
    decreases parts.len(),
{
    if parts.len() == 0 {
        0
    } else {
        parts[0].1 + total_records(parts.skip(1))
    }
}

/// The slices that make up the records from `lo` up to `hi`, where the records of all parts are
/// counted one part after the other.
pub open spec fn cut(parts: Seq<(Seq<char>, nat)>, lo: nat, hi: nat) -> Seq<SliceView>
    decreases parts.len(),
{
    if parts.len() == 0 {
        Seq::empty()
    } else {
        let (name, records) = parts[0];
        let end = if hi < records {
            hi
        } else {
            records
        };
        let first = if lo < end {
            seq![(SliceView { part: name, skip: lo, take: (end - lo) as nat })]
        } else {
            Seq::empty()
        };
        first + cut(parts.skip(1), less(lo, records), less(hi, records))
    }
}

/// `a - b`, or 0 where that is negative.
pub open spec fn less(a: nat, b: nat) -> nat {
    if a < b {
        0
    } else {
        (a - b) as nat
    }
}

/// The smallest number of segments that hold `total` points at `ceiling` points each.
pub open spec fn segment_count(total: nat, ceiling: nat) -> nat {
    ((total + ceiling - 1) / ceiling as int) as nat
}

/// The number of points before segment `k`, when `total` points are spread evenly over `count`
/// segments, the leading ones taking the remainder.
pub open spec fn segment_start(total: nat, count: nat, k: nat) -> nat {
    k * (total / count) + if k < total % count {
        k
    } else {
        total % count
    }
}

/// The number of points of segment `k`.
pub open spec fn segment_points(total: nat, count: nat, k: nat) -> nat {
    total / count + if k < total % count {
        1nat
    } else {
        0nat
    }
}

/// The end of a segment is the start of the next; the last ends with the last point.
pub proof fn lemma_segment_start(total: nat, count: nat, k: nat)
    requires
        count > 0,
        k <= count,
    ensures
        segment_start(total, count, 0) == 0,
        k < count ==> segment_start(total, count, k + 1) == segment_start(total, count, k)
            + segment_points(total, count, k),
        segment_start(total, count, k) <= total,
        segment_start(total, count, count) == total,
{
    let base = total / count;
    let rest = total % count;
    assert(total == count * base + rest && rest < count) by (nonlinear_arith)
        requires
            count > 0,
            base == total / count,
            rest == total % count,
    ;
    assert(0 * base == 0) by (nonlinear_arith);
    assert((k + 1) * base == k * base + base) by (nonlinear_arith);
    assert(k * base + (if k < rest {
        k
    } else {
        rest
    }) <= total) by (nonlinear_arith)
        requires
            k <= count,
            total == count * base + rest,
    ;
}

/// The text that a segment's UUID is derived from, up to the slices.
pub open spec fn segment_name_head(shard_id: u32, seq: nat, config_fingerprint: Seq<char>) -> Seq<char> {
    "qdrant-shard-builder/shard_"@ + text::decimal_text(shard_id as nat) + "/segment_"@
        + text::decimal_text(seq) + "/fp_"@ + config_fingerprint + "/parts["@
}

/// The slices in the text that a segment's UUID is derived from.
pub open spec fn slices_text(slices: Seq<SliceView>) -> Seq<char>
    decreases slices.len(),
{
    if slices.len() == 0 {
        Seq::empty()
    } else {
        let last = slices.last();
        slices_text(slices.drop_last()) + last.part + ":"@ + text::decimal_text(last.skip) + ":"@
            + text::decimal_text(last.take) + ";"@
    }
}

/// The text that a segment's UUID is derived from: the shard, the position, the config and the
/// exact slices.
pub open spec fn segment_name(
    shard_id: u32,
    seq: nat,
    config_fingerprint: Seq<char>,
    slices: Seq<SliceView>,
) -> Seq<char> {
    segment_name_head(shard_id, seq, config_fingerprint) + slices_text(slices) + "]"@
}

/// Deterministic, content-addressed segment UUID.
///
/// Planning the same inputs under the same config again gives the same UUIDs, so finished segments
/// are recognised. A changed grouping or config gives others, so a segment that holds something
/// else is never mistaken for a finished one.
pub fn segment_uuid(
    shard_id: u32,
    seq: usize,
    config_fingerprint: &str,
    parts: &Vec<PartSlice>,
) -> (uuid: u128)
    ensures
        uuid == ids::uuid_v5(
            ids::NAMESPACE_OID,
            segment_name(shard_id, seq as nat, config_fingerprint@, slices_view(parts@)),
        ),
{
    let mut name = "qdrant-shard-builder/shard_".to_owned();
    name.append(text::decimal(shard_id as u128).as_str());
    name.append("/segment_");
    name.append(text::decimal(seq as u128).as_str());
    name.append("/fp_");
    name.append(config_fingerprint);
    name.append("/parts[");
    let ghost head = name@;
    let mut i: usize = 0;
    assert(slices_view(parts@).take(0) =~= Seq::empty());
    assert(name@ =~= head + slices_text(slices_view(parts@).take(0)));
    while i < parts.len()
        invariant
            i <= parts.len(),
            name@ == head + slices_text(slices_view(parts@).take(i as int)),
        decreases parts.len() - i,
    {
        let ghost was = name@;
        let ghost longer = slices_view(parts@).take(i + 1);
        assert(longer.drop_last() =~= slices_view(parts@).take(i as int));
        assert(longer.last() == parts@[i as int]@);
        name.append(parts[i].part.as_str());
        name.append(":");
        name.append(text::decimal(parts[i].skip as u128).as_str());
        name.append(":");
        name.append(text::decimal(parts[i].take as u128).as_str());
        name.append(";");
        assert(name@ =~= head + slices_text(longer));
        i = i + 1;
    }
    assert(slices_view(parts@).take(parts@.len() as int) =~= slices_view(parts@));
    name.append("]");
    ids::new_v5(ids::NAMESPACE_OID, name.as_str())
}

/// Vector storage that `points` points take, as far as it can be counted.
pub open spec fn storage_bytes(points: nat, bytes_per_point: nat) -> nat {
    if points * bytes_per_point <= u64::MAX {
        points * bytes_per_point
    } else {
        u64::MAX as nat
    }
}

impl SegmentPlan {
    /// Whether this is the plan of segment `k` of a shard.
    pub open spec fn is_segment(
        self,
        k: nat,
        parts: Seq<(Seq<char>, nat)>,
        count: nat,
        bytes_per_point: nat,
        shard_id: u32,
        config_fingerprint: Seq<char>,
    ) -> bool {
        let total = total_records(parts);
        let slices = cut(
            parts,
            segment_start(total, count, k),
            segment_start(total, count, k + 1),
        );
        &&& self.seq == k
        &&& slices_view(self.parts@) == slices
        &&& self.points == segment_points(total, count, k)
        &&& self.vector_bytes == storage_bytes(self.points as nat, bytes_per_point)
        &&& self.uuid == ids::uuid_v5(
            ids::NAMESPACE_OID,
            segment_name(shard_id, k, config_fingerprint, slices),
        )
    }
}

fn saturating_mul(a: u64, b: u64) -> (product: u64)
    ensures
        product == storage_bytes(a as nat, b as nat),
{
    match a.checked_mul(b) {
        Some(product) => product,
        None => u64::MAX,
    }
}

/// The number of records in a list of parts.
fn count_records(parts: &Vec<(String, PartMeta)>) -> (total: u64)
    requires
        total_records(parts_view(parts@)) <= u64::MAX,
    ensures
        total == total_records(parts_view(parts@)),
{
    let mut total: u64 = 0;
    let mut i: usize = 0;
    let ghost view = parts_view(parts@);
    assert(view.skip(0) =~= view);
    while i < parts.len()
        invariant
            i <= parts.len(),
            view == parts_view(parts@),
            total + total_records(view.skip(i as int)) == total_records(view),
            total_records(view) <= u64::MAX,
        decreases parts.len() - i,
    {
        assert(view.skip(i as int)[0] == view[i as int]);
        assert(view.skip(i as int).skip(1) =~= view.skip(i + 1));
        total = total + parts[i].1.records;
        i = i + 1;
    }
    total
}

proof fn lemma_cut_nothing(parts: Seq<(Seq<char>, nat)>, at: nat)
    ensures
        cut(parts, at, at) =~= Seq::<SliceView>::empty(),
    decreases parts.len(),
{
    if parts.len() > 0 {
        lemma_cut_nothing(parts.skip(1), less(at, parts[0].1));
    }
}

/// The slices of one segment, read from where the previous one ended: `consumed` records into part
/// `part_index`.
fn take_slices(
    parts: &Vec<(String, PartMeta)>,
    part_index: usize,
    consumed: u64,
    points: u64,
) -> (taken: (Vec<PartSlice>, usize, u64))
    requires
        part_index <= parts@.len(),
        consumed == 0 || (part_index < parts@.len() && consumed
            < parts@[part_index as int].1.records),
        consumed + points <= total_records(parts_view(parts@).skip(part_index as int)),
        total_records(parts_view(parts@).skip(part_index as int)) <= u64::MAX,
    ensures
        slices_view(taken.0@) == cut(
            parts_view(parts@).skip(part_index as int),
            consumed as nat,
            (consumed + points) as nat,
        ),
        part_index <= taken.1 <= parts@.len(),
        taken.2 == 0 || (taken.1 < parts@.len() && taken.2 < parts@[taken.1 as int].1.records),
        total_records(parts_view(parts@).skip(taken.1 as int)) - taken.2 == total_records(
            parts_view(parts@).skip(part_index as int),
        ) - consumed - points,
{
    let ghost view = parts_view(parts@);
    let ghost rest = view.skip(part_index as int);
    let ghost target = cut(rest, consumed as nat, (consumed + points) as nat);
    let mut slices: Vec<PartSlice> = Vec::new();
    let mut index: usize = part_index;
    let mut used: u64 = consumed;
    let mut wanted: u64 = points;
    assert(slices_view(slices@) =~= Seq::empty());
    while wanted > 0
        invariant
            view == parts_view(parts@),
            rest == view.skip(part_index as int),
            target == cut(rest, consumed as nat, (consumed + points) as nat),
            part_index <= index <= parts@.len(),
            used == 0 || (index < parts@.len() && used < parts@[index as int].1.records),
            wanted <= points,
            total_records(rest) <= u64::MAX,
            consumed + points <= total_records(rest),
            total_records(view.skip(index as int)) - used - wanted == total_records(rest)
                - consumed - points,
            slices_view(slices@) + cut(
                view.skip(index as int),
                used as nat,
                (used + wanted) as nat,
            ) == target,
        decreases parts@.len() - index, wanted,
    {
        let ghost tail = view.skip(index as int);
        assert(index < parts.len());
        assert(tail[0] == (parts@[index as int].0@, parts@[index as int].1.records as nat));
        assert(tail.skip(1) =~= view.skip(index + 1));
        let records: u64 = parts[index].1.records;
        let available: u64 = records - used;
        let take: u64 = if available < wanted {
            available
        } else {
            wanted
        };
        let ghost was = slices_view(slices@);
        assert(cut(tail, used as nat, (used + wanted) as nat) =~= (if take > 0 {
            seq![
                (SliceView { part: parts@[index as int].0@, skip: used as nat, take: take as nat }),
            ]
        } else {
            Seq::empty()
        }) + cut(
            tail.skip(1),
            less(used as nat, records as nat),
            less((used + wanted) as nat, records as nat),
        ));
        if take > 0 {
            slices.push(PartSlice { part: parts[index].0.clone(), skip: used, take });
            assert(slices_view(slices@) =~= was.push(
                (SliceView { part: parts@[index as int].0@, skip: used as nat, take: take as nat }),
            ));
            used = used + take;
            wanted = wanted - take;
        }
        if used == records {
            index = index + 1;
            used = 0;
            assert(slices_view(slices@) + cut(
                view.skip(index as int),
                used as nat,
                (used + wanted) as nat,
            ) =~= target);
        } else {
            assert(wanted == 0);
            proof {
                lemma_cut_nothing(tail, used as nat);
                lemma_cut_nothing(tail.skip(1), 0);
            }
            assert(slices_view(slices@) + cut(
                view.skip(index as int),
                used as nat,
                (used + wanted) as nat,
            ) =~= target);
        }
    }
    proof {
        lemma_cut_nothing(view.skip(index as int), used as nat);
    }
    assert(slices_view(slices@) =~= target);
    (slices, index, used)
}

/// Split a shard's parts into segments that all land inside the configured size band.
///
/// Distributes the shard's points evenly over as few segments as the ceiling allows, rather than
/// greedily filling to the ceiling and leaving a remainder.
pub fn group_into_segments(
    parts: &Vec<(String, PartMeta)>,
    points_per_segment: u64,
    bytes_per_point: u64,
    shard_id: u32,
    config_fingerprint: &str,
) -> (segments: Vec<SegmentPlan>)
    requires
        points_per_segment > 0,
        total_records(parts_view(parts@)) <= u64::MAX,
        segment_count(total_records(parts_view(parts@)), points_per_segment as nat) <= usize::MAX,
    ensures
        segments@.len() == segment_count(
            total_records(parts_view(parts@)),
            points_per_segment as nat,
        ),
        forall|k: int|
            0 <= k < segments@.len() ==> (#[trigger] segments@[k]).is_segment(
                k as nat,
                parts_view(parts@),
                segments@.len(),
                bytes_per_point as nat,
                shard_id,
                config_fingerprint@,
            ),
{
    let ghost view = parts_view(parts@);
    let total: u64 = count_records(parts);
    let mut segments: Vec<SegmentPlan> = Vec::new();
    if total == 0 {
        proof {
            lemma_segment_count(0, points_per_segment as nat);
        }
        return segments;
    }
    let count: u64 = (total - 1) / points_per_segment + 1;
    proof {
        vstd::arithmetic::div_mod::lemma_div_plus_one(total - 1, points_per_segment as int);
    }
    assert(count == segment_count(total as nat, points_per_segment as nat));
    let base: u64 = total / count;
    let remainder: u64 = total % count;
    let mut part_index: usize = 0;
    let mut consumed: u64 = 0;
    let mut seq: u64 = 0;
    assert(view.skip(0) =~= view);
    proof {
        lemma_segment_start(total as nat, count as nat, 0);
    }
    while seq < count
        invariant
            seq <= count,
            count > 0,
            view == parts_view(parts@),
            total == total_records(view),
            count <= usize::MAX,
            base == total / count,
            remainder == total % count,
            segments@.len() == seq,
            part_index <= parts@.len(),
            consumed == 0 || (part_index < parts@.len() && consumed
                < parts@[part_index as int].1.records),
            total_records(view.skip(part_index as int)) - consumed == total - segment_start(
                total as nat,
                count as nat,
                seq as nat,
            ),
            total_records(view.skip(part_index as int)) <= total,
            forall|k: int|
                0 <= k < seq ==> (#[trigger] segments@[k]).is_segment(
                    k as nat,
                    view,
                    count as nat,
                    bytes_per_point as nat,
                    shard_id,
                    config_fingerprint@,
                ),
        decreases count - seq,
    {
        proof {
            lemma_segment_start(total as nat, count as nat, seq as nat);
            lemma_segment_start(total as nat, count as nat, (seq + 1) as nat);
        }
        let ghost start = segment_start(total as nat, count as nat, seq as nat);
        let points: u64 = if seq < remainder {
            base + 1
        } else {
            base
        };
        let ghost next = segment_start(total as nat, count as nat, (seq + 1) as nat);
        assert(next == start + points);
        let (slices, index, used) = take_slices(parts, part_index, consumed, points);
        proof {
            lemma_cut_skip(view, part_index as int, consumed as nat, (consumed + points) as nat);
            lemma_total_tail(view, index as int);
        }
        assert(slices_view(slices@) == cut(view, start, next));
        let uuid: u128 = segment_uuid(shard_id, seq as usize, config_fingerprint, &slices);
        segments.push(
            SegmentPlan {
                seq: seq as usize,
                uuid,
                parts: slices,
                points,
                vector_bytes: saturating_mul(points, bytes_per_point),
            },
        );
        part_index = index;
        consumed = used;
        seq = seq + 1;
    }
    segments
}

proof fn lemma_total_tail(parts: Seq<(Seq<char>, nat)>, i: int)
    requires
        0 <= i <= parts.len(),
    ensures
        total_records(parts.skip(i)) <= total_records(parts),
    decreases i,
{
    if i > 0 {
        lemma_total_tail(parts, i - 1);
        assert(parts.skip(i - 1).skip(1) =~= parts.skip(i));
    } else {
        assert(parts.skip(0) =~= parts);
    }
}

/// Records counted from part `p` on are the same records counted from the start, behind those of
/// the parts before.
proof fn lemma_cut_skip(parts: Seq<(Seq<char>, nat)>, p: int, lo: nat, hi: nat)
    requires
        0 <= p <= parts.len(),
    ensures
        total_records(parts.skip(p)) <= total_records(parts),
        ({
            let before = total_records(parts) - total_records(parts.skip(p));
            cut(parts.skip(p), lo, hi) == cut(parts, (before + lo) as nat, (before + hi) as nat)
        }),
    decreases p,
{
    lemma_total_tail(parts, p);
    if p > 0 {
        let records = parts[0].1;
        let rest = parts.skip(1);
        lemma_cut_skip(rest, p - 1, lo, hi);
        assert(rest.skip(p - 1) =~= parts.skip(p));
        let before = total_records(parts) - total_records(parts.skip(p));
        assert(before >= records);
        assert(cut(parts, (before + lo) as nat, (before + hi) as nat) =~= cut(
            rest,
            (before - records + lo) as nat,
            (before - records + hi) as nat,
        ));
    } else {
        assert(parts.skip(0) =~= parts);
    }
}

/// The records of a list of slices, in order: each by its part and its place in the part.
pub open spec fn records_of(slices: Seq<SliceView>) -> Seq<(Seq<char>, nat)>
    decreases slices.len(),
{
    if slices.len() == 0 {
        Seq::empty()
    } else {
        run_of(slices[0]) + records_of(slices.skip(1))
    }
}

/// The records of one slice.
pub open spec fn run_of(slice: SliceView) -> Seq<(Seq<char>, nat)> {
    Seq::new(slice.take, |i: int| (slice.part, (slice.skip + i) as nat))
}

/// The records of all parts, one part after the other.
pub open spec fn all_records(parts: Seq<(Seq<char>, nat)>) -> Seq<(Seq<char>, nat)>
    decreases parts.len(),
{
    if parts.len() == 0 {
        Seq::empty()
    } else {
        run_of(SliceView { part: parts[0].0, skip: 0, take: parts[0].1 }) + all_records(
            parts.skip(1),
        )
    }
}

proof fn lemma_records_of_sum(a: Seq<SliceView>, b: Seq<SliceView>)
    ensures
        records_of(a + b) == records_of(a) + records_of(b),
    decreases a.len(),
{
    if a.len() == 0 {
        assert(a + b =~= b);
        assert(records_of(a) + records_of(b) =~= records_of(b));
    } else {
        lemma_records_of_sum(a.skip(1), b);
        assert((a + b).skip(1) =~= a.skip(1) + b);
        assert(records_of(a + b) =~= records_of(a) + records_of(b));
    }
}

proof fn lemma_all_records_len(parts: Seq<(Seq<char>, nat)>)
    ensures
        all_records(parts).len() == total_records(parts),
    decreases parts.len(),
{
    if parts.len() > 0 {
        lemma_all_records_len(parts.skip(1));
    }
}

/// The slices from `lo` up to `hi` hold exactly the records in those places, in order.
pub proof fn cut_holds_its_records(parts: Seq<(Seq<char>, nat)>, lo: nat, hi: nat)
    requires
        lo <= hi <= total_records(parts),
    ensures
        all_records(parts).len() == total_records(parts),
        records_of(cut(parts, lo, hi)) == all_records(parts).subrange(lo as int, hi as int),
    decreases parts.len(),
{
    lemma_all_records_len(parts);
    if parts.len() == 0 {
        assert(records_of(cut(parts, lo, hi)) =~= all_records(parts).subrange(
            lo as int,
            hi as int,
        ));
    } else {
        let (name, records) = parts[0];
        let rest = parts.skip(1);
        lemma_all_records_len(rest);
        let end = if hi < records {
            hi
        } else {
            records
        };
        let slice = SliceView { part: name, skip: lo, take: less(end, lo) };
        let first: Seq<SliceView> = if lo < end {
            seq![slice]
        } else {
            Seq::empty()
        };
        let tail = cut(rest, less(lo, records), less(hi, records));
        cut_holds_its_records(rest, less(lo, records), less(hi, records));
        lemma_records_of_sum(first, tail);
        if lo < end {
            assert(first.skip(1) =~= Seq::<SliceView>::empty());
            assert(records_of(first.skip(1)) =~= Seq::<(Seq<char>, nat)>::empty());
            assert(first[0] == slice);
            assert(records_of(first) =~= run_of(slice));
        } else {
            assert(records_of(first) =~= Seq::<(Seq<char>, nat)>::empty());
        }
        assert(records_of(cut(parts, lo, hi)) == records_of(first) + records_of(tail));
        assert(records_of(first) + records_of(tail) =~= all_records(parts).subrange(
            lo as int,
            hi as int,
        ));
    }
}

/// The records of a list of segments, one segment after the other.
pub open spec fn records_of_segments(segments: Seq<SegmentPlan>) -> Seq<(Seq<char>, nat)>
    decreases segments.len(),
{
    if segments.len() == 0 {
        Seq::empty()
    } else {
        records_of_segments(segments.drop_last()) + records_of(
            slices_view(segments.last().parts@),
        )
    }
}

/// Whether `segments` are the plan that `group_into_segments` makes of `parts`.
pub open spec fn is_grouping(
    segments: Seq<SegmentPlan>,
    parts: Seq<(Seq<char>, nat)>,
    points_per_segment: nat,
    bytes_per_point: nat,
    shard_id: u32,
    config_fingerprint: Seq<char>,
) -> bool {
    &&& segments.len() == segment_count(total_records(parts), points_per_segment)
    &&& forall|k: int|
        0 <= k < segments.len() ==> (#[trigger] segments[k]).is_segment(
            k as nat,
            parts,
            segments.len(),
            bytes_per_point,
            shard_id,
            config_fingerprint,
        )
}

/// A number of segments is enough, and one less is not.
pub proof fn lemma_segment_count(total: nat, ceiling: nat)
    requires
        ceiling > 0,
    ensures
        segment_count(total, ceiling) == 0 <==> total == 0,
        segment_count(total, ceiling) * ceiling >= total,
        total > 0 ==> (segment_count(total, ceiling) - 1) * ceiling < total,
{
    let n = segment_count(total, ceiling);
    let top = total + ceiling - 1;
    vstd::arithmetic::div_mod::lemma_fundamental_div_mod(top, ceiling as int);
    vstd::arithmetic::div_mod::lemma_mod_bound(top, ceiling as int);
    let r = top % (ceiling as int);
    assert(top == ceiling * n + r);
    assert(n * ceiling == ceiling * n) by (nonlinear_arith);
    assert((n - 1) * ceiling == ceiling * n - ceiling) by (nonlinear_arith);
    if total > 0 {
        assert(n > 0) by (nonlinear_arith)
            requires
                n * ceiling >= total,
                total > 0,
        ;
    } else {
        assert(n == 0) by (nonlinear_arith)
            requires
                ceiling * n + r == ceiling - 1,
                r >= 0,
                ceiling > 0,
                n >= 0,
        ;
    }
}

/// Reading the slices of all segments, one segment after the other, gives every record of every
/// part once and in order: nothing is lost, and nothing is read twice.
pub proof fn segments_hold_every_record_once(
    segments: Seq<SegmentPlan>,
    parts: Seq<(Seq<char>, nat)>,
    points_per_segment: nat,
    bytes_per_point: nat,
    shard_id: u32,
    config_fingerprint: Seq<char>,
)
    requires
        points_per_segment > 0,
        is_grouping(
            segments,
            parts,
            points_per_segment,
            bytes_per_point,
            shard_id,
            config_fingerprint,
        ),
    ensures
        records_of_segments(segments) == all_records(parts),
        forall|k: int|
            0 <= k < segments.len() ==> records_of(
                slices_view((#[trigger] segments[k]).parts@),
            ).len() == segments[k].points,
{
    let total = total_records(parts);
    let count = segments.len();
    lemma_segment_count(total, points_per_segment);
    lemma_all_records_len(parts);
    if count == 0 {
        assert(records_of_segments(segments) =~= all_records(parts));
    } else {
        assert(segments.take(count as int) =~= segments);
        lemma_leading_segments(
            segments,
            segments,
            parts,
            bytes_per_point,
            shard_id,
            config_fingerprint,
        );
        lemma_segment_start(total, count, 0);
        assert(all_records(parts).subrange(0, total as int) =~= all_records(parts));
        assert forall|k: int| 0 <= k < segments.len() implies records_of(
            slices_view((#[trigger] segments[k]).parts@),
        ).len() == segments[k].points by {
            lemma_segment_start(total, count, k as nat);
            lemma_segment_start(total, count, (k + 1) as nat);
            cut_holds_its_records(
                parts,
                segment_start(total, count, k as nat),
                segment_start(total, count, (k + 1) as nat),
            );
        }
    }
}

proof fn lemma_leading_segments(
    leading: Seq<SegmentPlan>,
    segments: Seq<SegmentPlan>,
    parts: Seq<(Seq<char>, nat)>,
    bytes_per_point: nat,
    shard_id: u32,
    config_fingerprint: Seq<char>,
)
    requires
        segments.len() > 0,
        leading.len() <= segments.len(),
        leading == segments.take(leading.len() as int),
        forall|k: int|
            0 <= k < segments.len() ==> (#[trigger] segments[k]).is_segment(
                k as nat,
                parts,
                segments.len(),
                bytes_per_point,
                shard_id,
                config_fingerprint,
            ),
    ensures
        records_of_segments(leading) == all_records(parts).subrange(
            0,
            segment_start(total_records(parts), segments.len(), leading.len()) as int,
        ),
    decreases leading.len(),
{
    let total = total_records(parts);
    let count = segments.len();
    lemma_all_records_len(parts);
    lemma_segment_start(total, count, 0);
    if leading.len() == 0 {
        assert(records_of_segments(leading) =~= all_records(parts).subrange(0, 0));
    } else {
        let n = (leading.len() - 1) as nat;
        let front = leading.drop_last();
        assert(front =~= segments.take(n as int));
        lemma_leading_segments(
            front,
            segments,
            parts,
            bytes_per_point,
            shard_id,
            config_fingerprint,
        );
        lemma_segment_start(total, count, n);
        lemma_segment_start(total, count, n + 1);
        assert(leading.last() == segments[n as int]);
        let lo = segment_start(total, count, n);
        let hi = segment_start(total, count, n + 1);
        cut_holds_its_records(parts, lo, hi);
        assert(all_records(parts).subrange(0, lo as int) + all_records(parts).subrange(
            lo as int,
            hi as int,
        ) =~= all_records(parts).subrange(0, hi as int));
    }
}

/// No segment is above the ceiling; where there is more than one, none is below half of it; and no
/// two differ by more than one point.
pub proof fn segments_are_in_the_size_band(
    segments: Seq<SegmentPlan>,
    parts: Seq<(Seq<char>, nat)>,
    points_per_segment: nat,
    bytes_per_point: nat,
    shard_id: u32,
    config_fingerprint: Seq<char>,
)
    requires
        points_per_segment > 0,
        is_grouping(
            segments,
            parts,
            points_per_segment,
            bytes_per_point,
            shard_id,
            config_fingerprint,
        ),
    ensures
        forall|k: int|
            0 <= k < segments.len() ==> 0 < (#[trigger] segments[k]).points <= points_per_segment,
        segments.len() > 1 ==> forall|k: int|
            0 <= k < segments.len() ==> 2 * (#[trigger] segments[k]).points >= points_per_segment,
        forall|j: int, k: int|
            0 <= j < segments.len() && 0 <= k < segments.len() ==> (#[trigger] segments[j]).points
                <= (#[trigger] segments[k]).points + 1,
{
    let total = total_records(parts);
    let count = segments.len();
    let ceiling = points_per_segment;
    lemma_segment_count(total, ceiling);
    if count > 0 {
        let base = total / count;
        let rest = total % count;
        assert(total == count * base + rest && rest < count) by (nonlinear_arith)
            requires
                count > 0,
                base == total / count,
                rest == total % count,
        ;
        assert(base <= ceiling && (rest > 0 ==> base + 1 <= ceiling)) by (nonlinear_arith)
            requires
                total == count * base + rest,
                rest < count,
                count * ceiling >= total,
        ;
        assert(base >= 1) by (nonlinear_arith)
            requires
                total == count * base + rest,
                rest < count,
                total > 0,
                (count - 1) * ceiling < total,
                ceiling > 0,
        ;
        if count > 1 {
            assert(2 * base >= ceiling) by (nonlinear_arith)
                requires
                    count > 1,
                    total == count * base + rest,
                    rest < count,
                    (count - 1) * ceiling < total,
            ;
        }
        assert forall|k: int| 0 <= k < segments.len() implies (#[trigger] segments[k]).points
            == base + (if k < rest {
            1nat
        } else {
            0nat
        }) by {}
    }
}

/// Any two of a shard's segments hold more points together than fill one to the ceiling: otherwise
/// one segment fewer would have done.
proof fn lemma_two_segments(total: nat, count: nat, ceiling: nat, j: nat, k: nat)
    requires
        ceiling > 0,
        count == segment_count(total, ceiling),
        j < k < count,
    ensures
        segment_points(total, count, j) + segment_points(total, count, k) > ceiling,
{
    lemma_segment_count(total, ceiling);
    let base = total / count;
    let rest = total % count;
    assert(total == count * base + rest && rest < count) by (nonlinear_arith)
        requires
            count > 0,
            base == total / count,
            rest == total % count,
    ;
    let both = segment_points(total, count, j) + segment_points(total, count, k);
    assert(both >= 2 * base);
    assert(rest - (both - 2 * base) <= count - 2);
    assert(count * base == 2 * base + (count - 2) * base) by (nonlinear_arith);
    assert((count - 1) * ceiling == ceiling + (count - 2) * ceiling) by (nonlinear_arith);
    assert((count - 2) * (base + 1) == (count - 2) * base + (count - 2)) by (nonlinear_arith);
    if both <= ceiling {
        assert((count - 2) * ceiling < (count - 2) * (base + 1));
        assert(ceiling < base + 1) by (nonlinear_arith)
            requires
                count >= 2,
                (count - 2) * ceiling < (count - 2) * (base + 1),
        ;
    }
}

/// The estimated sizes of the segments of a plan.
pub open spec fn segment_sizes(segments: Seq<SegmentPlan>) -> Seq<u64> {
    Seq::new(segments.len(), |i: int| segments[i].vector_bytes)
}

/// The serving cluster never merges planned segments: no two of a shard's segments fit under the
/// size limit together, however the points divide. And none is above the limit, unless a single
/// point is.
pub proof fn planned_segments_never_merge(
    segments: Seq<SegmentPlan>,
    parts: Seq<(Seq<char>, nat)>,
    points_per_segment: nat,
    bytes_per_point: nat,
    max_bytes: u64,
    shard_id: u32,
    config_fingerprint: Seq<char>,
)
    requires
        bytes_per_point > 0,
        points_per_segment == (if max_bytes as nat / bytes_per_point == 0 {
            1
        } else {
            max_bytes as nat / bytes_per_point
        }),
        is_grouping(
            segments,
            parts,
            points_per_segment,
            bytes_per_point,
            shard_id,
            config_fingerprint,
        ),
    ensures
        !config::some_pair_fits(segment_sizes(segments), max_bytes as nat),
        bytes_per_point <= max_bytes ==> forall|k: int|
            0 <= k < segments.len() ==> (#[trigger] segments[k]).vector_bytes <= max_bytes,
{
    let total = total_records(parts);
    let count = segments.len();
    let sizes = segment_sizes(segments);
    let limit = max_bytes as nat;
    assert((points_per_segment + 1) * bytes_per_point > limit) by (nonlinear_arith)
        requires
            bytes_per_point > 0,
            points_per_segment >= limit / bytes_per_point,
    ;
    assert forall|i: int, j: int| 0 <= i < j < sizes.len() implies #[trigger] sizes[i]
        + #[trigger] sizes[j] >= limit by {
        lemma_two_segments(total, count, points_per_segment, i as nat, j as nat);
        let a = segments[i].points as nat;
        let b = segments[j].points as nat;
        assert(segments[i].is_segment(
            i as nat,
            parts,
            count,
            bytes_per_point,
            shard_id,
            config_fingerprint,
        ));
        assert(segments[j].is_segment(
            j as nat,
            parts,
            count,
            bytes_per_point,
            shard_id,
            config_fingerprint,
        ));
        assert(a * bytes_per_point + b * bytes_per_point >= (points_per_segment + 1)
            * bytes_per_point) by (nonlinear_arith)
            requires
                a + b > points_per_segment,
        ;
    }
    if bytes_per_point <= max_bytes {
        segments_are_in_the_size_band(
            segments,
            parts,
            points_per_segment,
            bytes_per_point,
            shard_id,
            config_fingerprint,
        );
        assert(points_per_segment * bytes_per_point <= limit) by (nonlinear_arith)
            requires
                bytes_per_point > 0,
                bytes_per_point <= limit,
                points_per_segment == (if limit / bytes_per_point == 0 {
                    1
                } else {
                    limit / bytes_per_point
                }),
        ;
        assert forall|k: int| 0 <= k < segments.len() implies (
        #[trigger] segments[k]).vector_bytes <= max_bytes by {
            let points = segments[k].points as nat;
            assert(points * bytes_per_point <= points_per_segment * bytes_per_point)
                by (nonlinear_arith)
                requires
                    points <= points_per_segment,
            ;
        }
    }
}

/// The plan for one shard.
#[derive(Debug)]
pub struct ShardPlan {
    pub shard_id: u32,
    /// Guards against building from parts scattered under a different collection config.
    pub config_fingerprint: String,
    pub max_segment_size_bytes: u64,
    pub merge_safe_min_bytes: u64,
    pub bytes_per_point: u64,
    pub points: u64,
    pub segments: Vec<SegmentPlan>,
}

/// How a plan run is tuned.
#[derive(Debug, Clone, Copy)]
pub struct PlanOptions {
    /// Threads reading part metadata.
    pub workers: usize,
    /// This machine's share of the shards, as index and total.
    pub slice: Option<(usize, usize)>,
    /// Plan shards again that already have a plan.
    pub replan: bool,
}

/// Outcome of a plan run.
#[derive(Debug)]
pub struct PlanReport {
    pub plans: Vec<ShardPlan>,
    /// Shards skipped because a plan already existed.
    pub shards_skipped: usize,
}

impl ShardPlan {
    /// Where a shard's plan stands, under the working directory.
    pub fn path_in(shard_id: u32) -> (path: String)
        ensures
            path@ == "plan/shard_"@ + text::decimal_text(shard_id as nat) + ".json"@,
    {
        text::cat3("plan/shard_", text::decimal(shard_id as u128).as_str(), ".json")
    }
}

/// Bytes of the dense vectors of one point, up to the first that cannot be counted.
pub open spec fn point_bytes(vectors: Seq<(Seq<char>, VectorParams)>) -> Result<nat, Seq<char>>
    decreases vectors.len(),
{
    if vectors.len() == 0 {
        Ok(0)
    } else {
        match point_bytes(vectors.drop_last()) {
            Err(message) => Err(message),
            Ok(sum) => {
                let (name, params) = vectors.last();
                let bytes = gates::vector_bytes(params);
                if bytes > u64::MAX {
                    Err(
                        "vector '"@ + name + "' has an implausible size "@ + text::decimal_text(
                            params.size as nat,
                        ),
                    )
                } else if sum + bytes > u64::MAX {
                    Err("total per-point vector size overflows"@)
                } else {
                    Ok(sum + bytes)
                }
            },
        }
    }
}

proof fn lemma_point_fault(vectors: Seq<(Seq<char>, VectorParams)>, n: int, message: Seq<char>)
    requires
        0 <= n <= vectors.len(),
        point_bytes(vectors.take(n)) == Err::<nat, Seq<char>>(message),
    ensures
        point_bytes(vectors) == Err::<nat, Seq<char>>(message),
    decreases vectors.len(),
{
    if n == vectors.len() {
        assert(vectors.take(n) =~= vectors);
    } else {
        assert(vectors.drop_last().take(n) =~= vectors.take(n));
        lemma_point_fault(vectors.drop_last(), n, message);
    }
}

/// Bytes of one point in vector storage, or why there is no such number.
pub open spec fn point_size(vectors: Seq<(Seq<char>, VectorParams)>) -> Result<nat, Seq<char>> {
    if point_bytes(vectors) == Ok::<nat, Seq<char>>(0) {
        Err("collection configures no dense vectors, so segment sizes cannot be planned"@)
    } else {
        point_bytes(vectors)
    }
}

/// Bytes one point occupies in vector storage, summed over every configured dense vector. Sparse
/// vectors are left out: how large they are depends on the data, and a segment that turns out larger
/// than planned is never merged.
pub fn bytes_per_point(config: &LoadedConfig) -> (bytes: Result<u64, String>)
    ensures
        match bytes {
            Ok(bytes) => bytes > 0 && point_size(config.config.vectors@) == Ok::<nat, Seq<char>>(
                bytes as nat,
            ),
            Err(message) => point_size(config.config.vectors@) == Err::<nat, Seq<char>>(message@),
        },
{
    let vectors = &config.config.vectors;
    let mut total: u64 = 0;
    let mut i: usize = 0;
    assert(vectors@.take(0) =~= Seq::empty());
    while i < vectors.len()
        invariant
            i <= vectors@.len(),
            *vectors == config.config.vectors,
            point_bytes(vectors@.take(i as int)) == Ok::<nat, Seq<char>>(total as nat),
        decreases vectors@.len() - i,
    {
        let ghost longer = vectors@.take(i + 1);
        assert(longer.drop_last() =~= vectors@.take(i as int));
        let params: VectorParams = *vectors.value_at(i);
        let element: u64 = gates::storage_element_bytes(params.datatype);
        assert(element * params.size <= 4 * u64::MAX) by (nonlinear_arith)
            requires
                element <= 4,
                params.size <= u64::MAX,
        ;
        let bytes: u128 = element as u128 * params.size as u128;
        if bytes > u64::MAX as u128 {
            let message = text::cat4(
                "vector '",
                vectors.name_at(i).as_str(),
                "' has an implausible size ",
                text::decimal(params.size as u128).as_str(),
            );
            proof {
                lemma_point_fault(vectors@, i + 1, message@);
            }
            return Err(message);
        }
        let sum: u128 = total as u128 + bytes;
        if sum > u64::MAX as u128 {
            let message = "total per-point vector size overflows".to_owned();
            proof {
                lemma_point_fault(vectors@, i + 1, message@);
            }
            return Err(message);
        }
        total = sum as u64;
        i = i + 1;
    }
    assert(vectors@.take(vectors@.len() as int) =~= vectors@);
    if total == 0 {
        return Err(
            "collection configures no dense vectors, so segment sizes cannot be planned".to_owned(),
        );
    }
    Ok(total)
}

/// What a plan run goes by: the size band, and the shards that are still to be planned.
#[derive(Debug)]
pub struct PlanScope {
    pub min_bytes: u64,
    pub max_bytes: u64,
    pub bytes_per_point: u64,
    /// Points that fill a segment to the ceiling; at least one.
    pub points_per_segment: u64,
    pub pending: Vec<u32>,
    pub skipped: usize,
}

/// The ids of all shards.
pub open spec fn all_shards(shard_count: nat) -> Seq<u32> {
    Seq::new(shard_count, |i: int| i as u32)
}

/// A machine's share of the shards.
pub open spec fn shard_share(shard_count: nat, slice: Option<(usize, usize)>) -> Seq<u32> {
    match slice {
        Some((index, total)) => building::stride(all_shards(shard_count), index as int, total as int),
        None => all_shards(shard_count),
    }
}

/// The shards of a list that have no plan yet.
pub open spec fn without_plan(shards: Seq<u32>, planned: Seq<u32>) -> Seq<u32>
    decreases shards.len(),
{
    if shards.len() == 0 {
        Seq::empty()
    } else {
        let front = without_plan(shards.drop_last(), planned);
        if planned.contains(shards.last()) {
            front
        } else {
            front.push(shards.last())
        }
    }
}

proof fn lemma_without_plan(shards: Seq<u32>, planned: Seq<u32>)
    ensures
        without_plan(shards, planned).len() <= shards.len(),
    decreases shards.len(),
{
    if shards.len() > 0 {
        lemma_without_plan(shards.drop_last(), planned);
    }
}

fn has_shard(list: &Vec<u32>, shard: u32) -> (found: bool)
    ensures
        found == list@.contains(shard),
{
    let mut i: usize = 0;
    while i < list.len()
        invariant
            i <= list.len(),
            forall|k: int| 0 <= k < i ==> #[trigger] list@[k] != shard,
        decreases list.len() - i,
    {
        if list[i] == shard {
            return true;
        }
        i = i + 1;
    }
    false
}

/// Whether this is what a plan run works on: the sizes that the config gives, and the shards of the
/// share that have no plan yet, or all of them.
pub open spec fn is_scope(
    scope: PlanScope,
    config: CollectionConfig,
    shard_count: nat,
    slice: Option<(usize, usize)>,
    replan: bool,
    planned: Seq<u32>,
) -> bool {
    let mine = shard_share(shard_count, slice);
    &&& config::segment_limit(config) == Some(scope.max_bytes as nat)
    &&& scope.min_bytes == config::half_up(scope.max_bytes as nat)
    &&& point_size(config.vectors@) == Ok::<nat, Seq<char>>(scope.bytes_per_point as nat)
    &&& scope.bytes_per_point > 0
    &&& scope.points_per_segment == (if scope.max_bytes / scope.bytes_per_point == 0 {
        1
    } else {
        scope.max_bytes / scope.bytes_per_point
    })
    &&& scope.pending@ == (if replan {
        mine
    } else {
        without_plan(mine, planned)
    })
    &&& scope.skipped == mine.len() - scope.pending@.len()
}

/// Why a plan run cannot start.
pub open spec fn scope_fault(
    config: LoadedConfig,
    shard_count: nat,
    options: PlanOptions,
) -> Option<Seq<char>> {
    if options.workers == 0 {
        Some("--workers must be at least 1"@)
    } else if config::segment_limit(config.config) is None {
        Some("max_segment_size must be set to plan segments"@)
    } else {
        match point_size(config.config.vectors@) {
            Err(message) => Some(message),
            Ok(_) => match options.slice {
                Some((index, total)) => if index >= total {
                    Some(cli::slice_range_text(index as nat, total as nat))
                } else if shard_share(shard_count, options.slice).len() == 0 {
                    Some(building::empty_slice_text(index as nat, total as nat, "shards"@))
                } else {
                    None
                },
                None => None,
            },
        }
    }
}

/// Decide what a plan run goes by. `planned` are the shards that have a plan: a plan is written as a
/// whole, so its presence means that the shard is planned, and it is skipped unless all are to be
/// planned again.
pub fn plan_scope(
    config: &LoadedConfig,
    router: &ShardRouter,
    options: PlanOptions,
    planned: &Vec<u32>,
) -> (scope: Result<PlanScope, String>)
    requires
        config.size_fits(),
        router.shard_count <= usize::MAX,
    ensures
        match scope {
            Ok(scope) => {
                &&& scope_fault(*config, router.shard_count as nat, options) is None
                &&& is_scope(
                    scope,
                    config.config,
                    router.shard_count as nat,
                    options.slice,
                    options.replan,
                    planned@,
                )
            },
            Err(message) => scope_fault(*config, router.shard_count as nat, options) == Some(
                message@,
            ),
        },
{
    if options.workers == 0 {
        return Err("--workers must be at least 1".to_owned());
    }
    let (min_bytes, max_bytes): (u64, u64) = match config.target_segment_band_bytes() {
        Some(band) => band,
        None => {
            return Err("max_segment_size must be set to plan segments".to_owned());
        },
    };
    let bytes: u64 = match bytes_per_point(config) {
        Ok(bytes) => bytes,
        Err(message) => {
            return Err(message);
        },
    };
    let fitting: u64 = max_bytes / bytes;
    let points_per_segment: u64 = if fitting == 0 {
        1
    } else {
        fitting
    };
    let all = router.ring_members();
    assert(all@ =~= all_shards(router.shard_count as nat));
    let mine = match options.slice {
        Some((index, total)) => match building::take_share(all, index, total, "shards") {
            Ok(mine) => mine,
            Err(message) => {
                return Err(message);
            },
        },
        None => all,
    };
    assert(mine@ == shard_share(router.shard_count as nat, options.slice));
    if options.replan {
        return Ok(
            PlanScope {
                min_bytes,
                max_bytes,
                bytes_per_point: bytes,
                points_per_segment,
                pending: mine,
                skipped: 0,
            },
        );
    }
    let mut pending: Vec<u32> = Vec::new();
    let mut i: usize = 0;
    assert(mine@.take(0) =~= Seq::empty());
    while i < mine.len()
        invariant
            i <= mine.len(),
            pending@ == without_plan(mine@.take(i as int), planned@),
        decreases mine.len() - i,
    {
        assert(mine@.take(i + 1).drop_last() =~= mine@.take(i as int));
        if !has_shard(planned, mine[i]) {
            pending.push(mine[i]);
        }
        i = i + 1;
    }
    assert(mine@.take(mine@.len() as int) =~= mine@);
    proof {
        lemma_without_plan(mine@, planned@);
    }
    let skipped: usize = mine.len() - pending.len();
    Ok(
        PlanScope {
            min_bytes,
            max_bytes,
            bytes_per_point: bytes,
            points_per_segment,
            pending,
            skipped,
        },
    )
}

/// Where the last dot stands, or zero where there is none: what follows it, where it does not stand
/// first, is the extension of a file name.
pub open spec fn last_dot(name: Seq<char>) -> int
    decreases name.len(),
{
    if name.len() == 0 {
        0
    } else if name.last() == '.' {
        name.len() - 1
    } else {
        last_dot(name.drop_last())
    }
}

/// The extension of a file name.
pub open spec fn extension(name: Seq<char>) -> Option<Seq<char>> {
    if last_dot(name) > 0 {
        Some(name.skip(last_dot(name) + 1))
    } else {
        None
    }
}

fn extension_of<'a>(name: &'a str) -> (found: Option<&'a str>)
    ensures
        match found {
            Some(found) => extension(name@) == Some(found@),
            None => extension(name@) is None,
        },
{
    let chars = text::chars_of(name);
    let mut end: usize = chars.len();
    assert(name@.take(end as int) =~= name@);
    while end > 0 && chars[end - 1] != '.'
        invariant
            chars@ == name@,
            end <= chars.len(),
            last_dot(name@) == last_dot(name@.take(end as int)),
        decreases end,
    {
        assert(name@.take(end as int).drop_last() =~= name@.take(end - 1));
        end = end - 1;
    }
    proof {
        if end > 0 {
            assert(name@.take(end as int).last() == '.');
        }
    }
    if end > 1 {
        assert(name@.skip(end as int) =~= name@.subrange(end as int, name@.len() as int));
        Some(name.substring_char(end, chars.len()))
    } else {
        None
    }
}

/// The part files among the files of a shard's scatter directory.
pub open spec fn parts_among(files: Seq<Seq<char>>) -> Seq<Seq<char>>
    decreases files.len(),
{
    if files.len() == 0 {
        Seq::empty()
    } else {
        let front = parts_among(files.drop_last());
        if extension(files.last()) == Some("meta"@) {
            front
        } else {
            front.push(files.last())
        }
    }
}

/// The first file from position `from` that is an uncommitted part.
pub open spec fn uncommitted(files: Seq<Seq<char>>, from: int) -> Option<Seq<char>>
    decreases files.len() - from,
{
    if from < 0 || from >= files.len() {
        None
    } else if extension(files[from]) == Some("tmp"@) {
        Some(files[from])
    } else {
        uncommitted(files, from + 1)
    }
}

/// The part files of a shard in order, so that the same inputs always give the same grouping. What
/// stands beside a part is left out, and an uncommitted part is refused. `dir` is the directory in a
/// complaint.
pub fn discover_part_names(dir: &str, files: &Vec<String>) -> (names: Result<Vec<String>, String>)
    ensures
        match names {
            Ok(names) => {
                &&& uncommitted(text::texts(files@), 0) is None
                &&& text::sorted_texts(text::texts(names@))
                &&& text::texts(names@).to_multiset() == parts_among(
                    text::texts(files@),
                ).to_multiset()
            },
            Err(message) => match uncommitted(text::texts(files@), 0) {
                Some(name) => message@ == dir@ + "/"@ + name
                    + " is an uncommitted part; re-run the scatter phase before planning"@,
                None => false,
            },
        },
{
    let ghost all = text::texts(files@);
    let mut names: Vec<String> = Vec::new();
    let mut i: usize = 0;
    assert(all.take(0) =~= Seq::empty());
    assert(text::texts(names@) =~= Seq::empty());
    while i < files.len()
        invariant
            i <= files.len(),
            all == text::texts(files@),
            uncommitted(all, 0) == uncommitted(all, i as int),
            text::texts(names@) == parts_among(all.take(i as int)),
        decreases files.len() - i,
    {
        assert(all.take(i + 1).drop_last() =~= all.take(i as int));
        assert(all[i as int] == files@[i as int]@);
        let mut beside: bool = false;
        match extension_of(files[i].as_str()) {
            Some(extension) => {
                if text::same(extension, "meta") {
                    beside = true;
                }
                if text::same(extension, "tmp") {
                    return Err(
                        text::cat4(
                            dir,
                            "/",
                            files[i].as_str(),
                            " is an uncommitted part; re-run the scatter phase before planning",
                        ),
                    );
                }
            },
            None => {},
        }
        if !beside {
            let ghost was = text::texts(names@);
            names.push(files[i].clone());
            assert(text::texts(names@) =~= was.push(all[i as int]));
        }
        i = i + 1;
    }
    assert(all.take(all.len() as int) =~= all);
    Ok(text::sort_names(names))
}

/// The shards without a part file.
pub open spec fn empty_shards(shards: Seq<(u32, usize)>) -> Seq<Seq<char>>
    decreases shards.len(),
{
    if shards.len() == 0 {
        Seq::empty()
    } else {
        let front = empty_shards(shards.drop_last());
        if shards.last().1 == 0 {
            front.push(text::decimal_text(shards.last().0 as nat))
        } else {
            front
        }
    }
}

/// Refuse a shard without parts before any plan is written: the artifact would be of fewer shards
/// than the collection has. `shards` holds the number of part files of each pending shard.
pub fn check_no_empty_shards(shards: &Vec<(u32, usize)>) -> (outcome: Result<(), String>)
    ensures
        match outcome {
            Ok(()) => empty_shards(shards@).len() == 0,
            Err(message) => empty_shards(shards@).len() > 0 && message@
                == "cannot build a complete shard set: configured shard(s) ["@ + text::joined(
                empty_shards(shards@),
                ", "@,
            )
                + "] contain no scattered points. The shard builder requires every shard to be non-empty; reduce params.shard_number, supply more data, or use Qdrant's normal empty-shard creation path instead of offline adoption."@,
        },
{
    let mut empty: Vec<String> = Vec::new();
    let mut i: usize = 0;
    assert(shards@.take(0) =~= Seq::empty());
    assert(text::texts(empty@) =~= Seq::empty());
    while i < shards.len()
        invariant
            i <= shards.len(),
            text::texts(empty@) == empty_shards(shards@.take(i as int)),
        decreases shards.len() - i,
    {
        assert(shards@.take(i + 1).drop_last() =~= shards@.take(i as int));
        if shards[i].1 == 0 {
            let ghost was = text::texts(empty@);
            empty.push(text::decimal(shards[i].0 as u128));
            assert(text::texts(empty@) =~= was.push(
                text::decimal_text(shards@[i as int].0 as nat),
            ));
        }
        i = i + 1;
    }
    assert(shards@.take(shards@.len() as int) =~= shards@);
    assert(text::texts(empty@).len() == empty@.len());
    if empty.len() > 0 {
        return Err(
            text::cat3(
                "cannot build a complete shard set: configured shard(s) [",
                text::join(&empty, ", ").as_str(),
                "] contain no scattered points. The shard builder requires every shard to be non-empty; reduce params.shard_number, supply more data, or use Qdrant's normal empty-shard creation path instead of offline adoption.",
            ),
        );
    }
    Ok(())
}

/// Whether the metadata of every part was read.
pub open spec fn all_read(metas: Seq<Option<PartMeta>>) -> bool {
    forall|i: int| 0 <= i < metas.len() ==> #[trigger] metas[i] is Some
}

/// The parts of a shard with their metadata, in the order of their names whatever order they were
/// read in: the grouping, and with it every segment's name, depends on it.
pub fn read_part_metas(names: Vec<String>, metas: &Vec<Option<PartMeta>>) -> (parts: Result<
    Vec<(String, PartMeta)>,
    String,
>)
    requires
        names@.len() == metas@.len(),
    ensures
        match parts {
            Ok(parts) => {
                &&& all_read(metas@)
                &&& parts@.len() == names@.len()
                &&& forall|i: int|
                    0 <= i < parts@.len() ==> (#[trigger] parts@[i]).0@ == names@[i]@ && Some(
                        parts@[i].1,
                    ) == metas@[i]
            },
            Err(message) => !all_read(metas@) && message@ == "a part's metadata was not read"@,
        },
{
    let mut parts: Vec<(String, PartMeta)> = Vec::new();
    let mut i: usize = 0;
    while i < names.len()
        invariant
            i <= names.len(),
            names@.len() == metas@.len(),
            parts@.len() == i,
            forall|k: int|
                0 <= k < i ==> (#[trigger] parts@[k]).0@ == names@[k]@ && Some(parts@[k].1)
                    == metas@[k],
        decreases names.len() - i,
    {
        match metas[i] {
            Some(meta) => parts.push((names[i].clone(), meta)),
            None => {
                assert(metas@[i as int] is None);
                return Err("a part's metadata was not read".to_owned());
            },
        }
        i = i + 1;
    }
    proof {
        assert forall|k: int| 0 <= k < metas@.len() implies #[trigger] metas@[k] is Some by {
            assert(Some(parts@[k].1) == metas@[k]);
        }
    }
    Ok(parts)
}

/// Whether this is the plan of a shard with those parts, under a config of that fingerprint and with
/// the sizes of that run.
pub open spec fn is_plan(
    plan: ShardPlan,
    config_fingerprint: Seq<char>,
    scope: PlanScope,
    shard_id: u32,
    parts: Seq<(Seq<char>, nat)>,
) -> bool {
    &&& plan.shard_id == shard_id
    &&& plan.config_fingerprint@ == config_fingerprint
    &&& plan.max_segment_size_bytes == scope.max_bytes
    &&& plan.merge_safe_min_bytes == scope.min_bytes
    &&& plan.bytes_per_point == scope.bytes_per_point
    &&& plan.points == total_records(parts)
    &&& is_grouping(
        plan.segments@,
        parts,
        scope.points_per_segment as nat,
        scope.bytes_per_point as nat,
        shard_id,
        config_fingerprint,
    )
}

/// Plan one shard: group its parts into segments inside the size band.
pub fn plan_shard(
    config: &LoadedConfig,
    scope: &PlanScope,
    shard_id: u32,
    parts: &Vec<(String, PartMeta)>,
) -> (plan: ShardPlan)
    requires
        scope.points_per_segment > 0,
        total_records(parts_view(parts@)) <= u64::MAX,
        segment_count(total_records(parts_view(parts@)), scope.points_per_segment as nat)
            <= usize::MAX,
    ensures
        is_plan(plan, config.fingerprint@, *scope, shard_id, parts_view(parts@)),
{
    let segments = group_into_segments(
        parts,
        scope.points_per_segment,
        scope.bytes_per_point,
        shard_id,
        config.fingerprint.as_str(),
    );
    ShardPlan {
        shard_id,
        config_fingerprint: config.fingerprint.clone(),
        max_segment_size_bytes: scope.max_bytes,
        merge_safe_min_bytes: scope.min_bytes,
        bytes_per_point: scope.bytes_per_point,
        points: count_records(parts),
        segments,
    }
}

/// Close a plan run. One that neither planned nor skipped a shard had nothing to plan from.
pub fn finish_plan(plans: Vec<ShardPlan>, skipped: usize, state_path: &str) -> (report: Result<
    PlanReport,
    String,
>)
    ensures
        match report {
            Ok(report) => {
                &&& report.plans == plans
                &&& report.shards_skipped == skipped
                &&& plans@.len() > 0 || skipped > 0
            },
            Err(message) => plans@.len() == 0 && skipped == 0 && message@
                == "no scattered parts found under "@ + state_path@
                + "; run the scatter phase first"@,
        },
{
    if plans.len() == 0 && skipped == 0 {
        return Err(
            text::cat3(
                "no scattered parts found under ",
                state_path,
                "; run the scatter phase first",
            ),
        );
    }
    Ok(PlanReport { plans, shards_skipped: skipped })
}

/// How many segments are below a size.
pub open spec fn short_segments(segments: Seq<SegmentPlan>, floor: u64) -> nat
    decreases segments.len(),
{
    if segments.len() == 0 {
        0
    } else {
        short_segments(segments.drop_last(), floor) + (if segments.last().vector_bytes < floor {
            1nat
        } else {
            0
        })
    }
}

/// Warnings about a plan that would provoke the serving cluster's optimizers: two or more segments
/// that they would merge, or a shard far smaller than the config implies.
pub open spec fn review_notes(plan: ShardPlan) -> Seq<Seq<char>> {
    let short = short_segments(plan.segments@, plan.merge_safe_min_bytes);
    let floor = cli::human_text(plan.merge_safe_min_bytes as nat);
    let mergeable = if short >= 2 {
        seq![
            text::decimal_text(short) + " segments are below the "@ + floor
                + " merge-safe floor; the cluster would merge them on load. Raise optimizer_config.max_segment_size or reduce shard_number."@,
        ]
    } else {
        Seq::empty()
    };
    if plan.segments@.len() == 1 && plan.segments@[0].vector_bytes < plan.merge_safe_min_bytes {
        mergeable.push(
            "shard "@ + text::decimal_text(plan.shard_id as nat) + " holds only "@
                + cli::human_text(plan.segments@[0].vector_bytes as nat) + ", below the "@ + floor
                + " floor. A single segment is safe (nothing to pair with), but the shard is far smaller than the config implies."@,
        )
    } else {
        mergeable
    }
}

/// Warnings about a plan that would provoke the serving cluster's optimizers.
pub fn review(plan: &ShardPlan) -> (notes: Vec<String>)
    ensures
        text::texts(notes@) == review_notes(*plan),
{
    let mut short: usize = 0;
    let mut i: usize = 0;
    assert(plan.segments@.take(0) =~= Seq::empty());
    while i < plan.segments.len()
        invariant
            i <= plan.segments.len(),
            short <= i,
            short == short_segments(plan.segments@.take(i as int), plan.merge_safe_min_bytes),
        decreases plan.segments.len() - i,
    {
        assert(plan.segments@.take(i + 1).drop_last() =~= plan.segments@.take(i as int));
        if plan.segments[i].vector_bytes < plan.merge_safe_min_bytes {
            short = short + 1;
        }
        i = i + 1;
    }
    assert(plan.segments@.take(plan.segments@.len() as int) =~= plan.segments@);
    let mut notes: Vec<String> = Vec::new();
    assert(text::texts(notes@) =~= Seq::empty());
    if short >= 2 {
        let note = text::cat4(
            text::decimal(short as u128).as_str(),
            " segments are below the ",
            cli::human_bytes(plan.merge_safe_min_bytes).as_str(),
            " merge-safe floor; the cluster would merge them on load. Raise optimizer_config.max_segment_size or reduce shard_number.",
        );
        let ghost said = note@;
        notes.push(note);
        assert(text::texts(notes@) =~= seq![said]);
    }
    if plan.segments.len() == 1 && plan.segments[0].vector_bytes < plan.merge_safe_min_bytes {
        let note = text::cat7(
            "shard ",
            text::decimal(plan.shard_id as u128).as_str(),
            " holds only ",
            cli::human_bytes(plan.segments[0].vector_bytes).as_str(),
            ", below the ",
            cli::human_bytes(plan.merge_safe_min_bytes).as_str(),
            " floor. A single segment is safe (nothing to pair with), but the shard is far smaller than the config implies.",
        );
        let ghost said = note@;
        let ghost was = text::texts(notes@);
        notes.push(note);
        assert(text::texts(notes@) =~= was.push(said));
    }
    notes
}

proof fn lemma_one_short(segments: Seq<SegmentPlan>, floor: u64) -> (i: int)
    requires
        short_segments(segments, floor) > 0,
    ensures
        0 <= i < segments.len(),
        segments[i].vector_bytes < floor,
    decreases segments.len(),
{
    if segments.last().vector_bytes < floor {
        segments.len() - 1
    } else {
        lemma_one_short(segments.drop_last(), floor)
    }
}

proof fn lemma_two_short(segments: Seq<SegmentPlan>, floor: u64) -> (pair: (int, int))
    requires
        short_segments(segments, floor) > 1,
    ensures
        0 <= pair.0 < pair.1 < segments.len(),
        segments[pair.0].vector_bytes < floor,
        segments[pair.1].vector_bytes < floor,
    decreases segments.len(),
{
    if segments.last().vector_bytes < floor {
        (lemma_one_short(segments.drop_last(), floor), segments.len() - 1)
    } else {
        lemma_two_short(segments.drop_last(), floor)
    }
}

/// At most one planned segment of a shard is below the merge-safe floor, so a plan is never warned of
/// for segments that would be merged.
pub proof fn at_most_one_planned_segment_is_short(
    segments: Seq<SegmentPlan>,
    parts: Seq<(Seq<char>, nat)>,
    points_per_segment: nat,
    bytes_per_point: nat,
    max_bytes: u64,
    shard_id: u32,
    config_fingerprint: Seq<char>,
)
    requires
        bytes_per_point > 0,
        points_per_segment == (if max_bytes as nat / bytes_per_point == 0 {
            1
        } else {
            max_bytes as nat / bytes_per_point
        }),
        is_grouping(
            segments,
            parts,
            points_per_segment,
            bytes_per_point,
            shard_id,
            config_fingerprint,
        ),
    ensures
        short_segments(segments, config::half_up(max_bytes as nat) as u64) <= 1,
{
    let floor = config::half_up(max_bytes as nat) as u64;
    if short_segments(segments, floor) > 1 {
        let (i, j) = lemma_two_short(segments, floor);
        planned_segments_never_merge(
            segments,
            parts,
            points_per_segment,
            bytes_per_point,
            max_bytes,
            shard_id,
            config_fingerprint,
        );
        config::two_segments_below_the_floor_merge(
            segment_sizes(segments),
            max_bytes as nat,
            i,
            j,
        );
    }
}

/// Whether a text is free of a character.
pub open spec fn lacks(s: Seq<char>, c: char) -> bool {
    forall|i: int| 0 <= i < s.len() ==> #[trigger] s[i] != c
}

/// Two texts up to the first delimiter, and what follows it.
proof fn lemma_up_to(a: Seq<char>, x: Seq<char>, b: Seq<char>, y: Seq<char>, c: char)
    requires
        lacks(a, c),
        lacks(b, c),
        a + seq![c] + x == b + seq![c] + y,
    ensures
        a == b,
        x == y,
{
    let left = a + seq![c] + x;
    let right = b + seq![c] + y;
    assert(left[a.len() as int] == c);
    assert(right[b.len() as int] == c);
    if a.len() < b.len() {
        assert(right[a.len() as int] == b[a.len() as int]);
    } else if b.len() < a.len() {
        assert(left[b.len() as int] == a[b.len() as int]);
    }
    assert(a =~= left.take(a.len() as int));
    assert(b =~= right.take(b.len() as int));
    assert(x =~= left.skip(a.len() as int + 1));
    assert(y =~= right.skip(b.len() as int + 1));
}

/// One slice in the text that a segment's UUID is derived from.
spec fn slice_text(slice: SliceView) -> Seq<char> {
    slice.part + ":"@ + text::decimal_text(slice.skip) + ":"@ + text::decimal_text(slice.take) + ";"@
}

/// The slices' text from the front.
proof fn lemma_slices_front(slices: Seq<SliceView>)
    requires
        slices.len() > 0,
    ensures
        slices_text(slices) == slice_text(slices[0]) + slices_text(slices.skip(1)),
    decreases slices.len(),
{
    let rest = slices.drop_last();
    let last = slices.last();
    assert(slices_text(slices) =~= slices_text(rest) + slice_text(last));
    if rest.len() == 0 {
        assert(slices.skip(1) =~= Seq::empty());
        assert(slices_text(slices) =~= slice_text(slices[0]) + slices_text(slices.skip(1)));
    } else {
        lemma_slices_front(rest);
        assert(slices.skip(1).drop_last() =~= rest.skip(1));
        assert(slices.skip(1).last() == last);
        assert(slices_text(slices.skip(1)) =~= slices_text(rest.skip(1)) + slice_text(last));
        assert(slices_text(slices) =~= slice_text(slices[0]) + slices_text(slices.skip(1)));
    }
}

/// The first slice of a text, and what follows it.
proof fn lemma_slice_apart(p: SliceView, x: Seq<char>, q: SliceView, y: Seq<char>)
    requires
        slice_text(p) + x == slice_text(q) + y,
        lacks(p.part, ':'),
        lacks(q.part, ':'),
    ensures
        p == q,
        x == y,
{
    reveal_strlit(":");
    reveal_strlit(";");
    let tx = ";"@ + x;
    let ty = ";"@ + y;
    let sx = ":"@ + (text::decimal_text(p.take) + tx);
    let sy = ":"@ + (text::decimal_text(q.take) + ty);
    assert(":"@ =~= seq![':']);
    assert(slice_text(p) + x =~= p.part + seq![':'] + (text::decimal_text(p.skip) + sx));
    assert(slice_text(q) + y =~= q.part + seq![':'] + (text::decimal_text(q.skip) + sy));
    lemma_up_to(
        p.part,
        text::decimal_text(p.skip) + sx,
        q.part,
        text::decimal_text(q.skip) + sy,
        ':',
    );
    text::decimal_then(p.skip, sx, q.skip, sy);
    lemma_behind(":"@, text::decimal_text(p.take) + tx, text::decimal_text(q.take) + ty);
    text::decimal_then(p.take, tx, q.take, ty);
    lemma_behind(";"@, x, y);
}

proof fn lemma_slice_text_len(slice: SliceView)
    ensures
        slice_text(slice).len() > 0,
{
    reveal_strlit(";");
}

#[verifier::spinoff_prover]
proof fn lemma_slices_differ(a: Seq<SliceView>, b: Seq<SliceView>)
    requires
        slices_text(a) == slices_text(b),
        forall|i: int| 0 <= i < a.len() ==> lacks((#[trigger] a[i]).part, ':'),
        forall|i: int| 0 <= i < b.len() ==> lacks((#[trigger] b[i]).part, ':'),
    ensures
        a == b,
    decreases a.len(),
{
    if a.len() == 0 && b.len() == 0 {
        assert(a =~= b);
    } else if a.len() == 0 {
        lemma_slices_front(b);
        lemma_slice_text_len(b[0]);
        assert(slices_text(a).len() == 0);
        assert(slices_text(b).len() > 0);
    } else if b.len() == 0 {
        lemma_slices_front(a);
        lemma_slice_text_len(a[0]);
        assert(slices_text(b).len() == 0);
        assert(slices_text(a).len() > 0);
    } else {
        let ra = a.skip(1);
        let rb = b.skip(1);
        lemma_slices_front(a);
        lemma_slices_front(b);
        lemma_slice_apart(a[0], slices_text(ra), b[0], slices_text(rb));
        assert forall|i: int| 0 <= i < ra.len() implies lacks((#[trigger] ra[i]).part, ':') by {
            assert(ra[i] == a[i + 1]);
        }
        assert forall|i: int| 0 <= i < rb.len() implies lacks((#[trigger] rb[i]).part, ':') by {
            assert(rb[i] == b[i + 1]);
        }
        lemma_slices_differ(ra, rb);
        assert(ra.len() == a.len() - 1 && rb.len() == b.len() - 1);
        assert forall|i: int| 0 <= i < a.len() implies a[i] == b[i] by {
            if i > 0 {
                assert(ra[i - 1] == a[i] && rb[i - 1] == b[i]);
            }
        }
        assert(a =~= b);
    }
}

/// Whether a part can have that name.
pub open spec fn is_part_name(name: Seq<char>) -> bool {
    lacks(name, ':') && lacks(name, '/')
}

/// Neither slices of such parts nor the bracket behind them hold a slash.
proof fn lemma_slices_lack_slash(slices: Seq<SliceView>)
    requires
        forall|i: int| 0 <= i < slices.len() ==> is_part_name((#[trigger] slices[i]).part),
    ensures
        lacks(slices_text(slices), '/'),
        lacks(slices_text(slices) + "]"@, '/'),
    decreases slices.len(),
{
    reveal_strlit("]");
    reveal_strlit(":");
    reveal_strlit(";");
    if slices.len() > 0 {
        let rest = slices.drop_last();
        let last = slices.last();
        assert(last == slices[slices.len() - 1]);
        assert forall|i: int| 0 <= i < rest.len() implies is_part_name(
            (#[trigger] rest[i]).part,
        ) by {
            assert(rest[i] == slices[i]);
        }
        lemma_slices_lack_slash(rest);
        text::decimal_reads_back(last.skip);
        text::decimal_reads_back(last.take);
        let skip = text::decimal_text(last.skip);
        let take = text::decimal_text(last.take);
        assert(lacks(skip, '/') && lacks(take, '/'));
        assert(lacks(slices_text(rest) + last.part, '/'));
        assert(lacks(slices_text(rest) + last.part + ":"@ + skip, '/'));
        assert(lacks(slices_text(rest) + last.part + ":"@ + skip + ":"@ + take, '/'));
    }
}

/// Segments are named by their content: two segments of different shards, positions, configs or
/// slices never share the text that their UUID is derived from. A part is named by a file name, which
/// holds no slash, and without a colon.
pub proof fn segment_names_are_unambiguous(
    shard_a: u32,
    seq_a: nat,
    fingerprint_a: Seq<char>,
    a: Seq<SliceView>,
    shard_b: u32,
    seq_b: nat,
    fingerprint_b: Seq<char>,
    b: Seq<SliceView>,
)
    requires
        segment_name(shard_a, seq_a, fingerprint_a, a) == segment_name(
            shard_b,
            seq_b,
            fingerprint_b,
            b,
        ),
        forall|i: int| 0 <= i < a.len() ==> is_part_name((#[trigger] a[i]).part),
        forall|i: int| 0 <= i < b.len() ==> is_part_name((#[trigger] b[i]).part),
    ensures
        shard_a == shard_b,
        seq_a == seq_b,
        fingerprint_a == fingerprint_b,
        a == b,
{
    let wa = "/parts["@ + (slices_text(a) + "]"@);
    let wb = "/parts["@ + (slices_text(b) + "]"@);
    let va = "/fp_"@ + (fingerprint_a + wa);
    let vb = "/fp_"@ + (fingerprint_b + wb);
    let ua = "/segment_"@ + (text::decimal_text(seq_a) + va);
    let ub = "/segment_"@ + (text::decimal_text(seq_b) + vb);
    lemma_name_shape(shard_a, seq_a, fingerprint_a, a);
    lemma_name_shape(shard_b, seq_b, fingerprint_b, b);
    assert(ua[0] == '/' && ub[0] == '/') by {
        reveal_strlit("/segment_");
    }
    assert(va[0] == '/' && vb[0] == '/') by {
        reveal_strlit("/fp_");
    }
    assert(ua.len() > 0 && ub.len() > 0 && va.len() > 0 && vb.len() > 0) by {
        reveal_strlit("/segment_");
        reveal_strlit("/fp_");
    }
    lemma_numbered("qdrant-shard-builder/shard_"@, shard_a as nat, ua, shard_b as nat, ub);
    lemma_numbered("/segment_"@, seq_a, va, seq_b, vb);
    lemma_behind("/fp_"@, fingerprint_a + wa, fingerprint_b + wb);
    lemma_slices_lack_slash(a);
    lemma_slices_lack_slash(b);
    lemma_fingerprint_apart(fingerprint_a, slices_text(a) + "]"@, fingerprint_b, slices_text(b) + "]"@);
    lemma_before(slices_text(a), slices_text(b), "]"@);
    lemma_slices_differ(a, b);
}

/// The text that a segment's UUID is derived from, piece by piece.
proof fn lemma_name_shape(
    shard_id: u32,
    seq: nat,
    fingerprint: Seq<char>,
    slices: Seq<SliceView>,
)
    ensures
        segment_name(shard_id, seq, fingerprint, slices) == "qdrant-shard-builder/shard_"@ + (
        text::decimal_text(shard_id as nat) + ("/segment_"@ + (text::decimal_text(seq) + ("/fp_"@
            + (fingerprint + ("/parts["@ + (slices_text(slices) + "]"@))))))),
{
    let x = slices_text(slices) + "]"@;
    let shard = text::decimal_text(shard_id as nat);
    let place = text::decimal_text(seq);
    let p1 = "qdrant-shard-builder/shard_"@;
    let p2 = p1 + shard;
    let p3 = p2 + "/segment_"@;
    let p4 = p3 + place;
    let p5 = p4 + "/fp_"@;
    let p6 = p5 + fingerprint;
    let p7 = p6 + "/parts["@;
    let q7 = "/parts["@ + x;
    let q6 = fingerprint + q7;
    let q5 = "/fp_"@ + q6;
    let q4 = place + q5;
    let q3 = "/segment_"@ + q4;
    assert(p7 == segment_name_head(shard_id, seq, fingerprint));
    lemma_regrouped(p7, slices_text(slices), "]"@);
    lemma_regrouped(p6, "/parts["@, x);
    lemma_regrouped(p5, fingerprint, q7);
    lemma_regrouped(p4, "/fp_"@, q6);
    lemma_regrouped(p3, place, q5);
    lemma_regrouped(p2, "/segment_"@, q4);
    lemma_regrouped(p1, shard, q3);
}

proof fn lemma_regrouped(p: Seq<char>, q: Seq<char>, x: Seq<char>)
    ensures
        (p + q) + x == p + (q + x),
{
    assert((p + q) + x =~= p + (q + x));
}

proof fn lemma_numbered(prefix: Seq<char>, n: nat, x: Seq<char>, m: nat, y: Seq<char>)
    requires
        prefix + (text::decimal_text(n) + x) == prefix + (text::decimal_text(m) + y),
        x.len() > 0,
        y.len() > 0,
        x[0] == '/',
        y[0] == '/',
    ensures
        n == m,
        x == y,
{
    lemma_behind(prefix, text::decimal_text(n) + x, text::decimal_text(m) + y);
    text::decimal_then(n, x, m, y);
}

/// What follows one prefix.
proof fn lemma_behind(prefix: Seq<char>, x: Seq<char>, y: Seq<char>)
    requires
        prefix + x == prefix + y,
    ensures
        x == y,
{
    assert((prefix + x).skip(prefix.len() as int) =~= x);
    assert((prefix + y).skip(prefix.len() as int) =~= y);
}

/// What comes before one suffix.
proof fn lemma_before(x: Seq<char>, y: Seq<char>, suffix: Seq<char>)
    requires
        x + suffix == y + suffix,
    ensures
        x == y,
{
    assert((x + suffix).len() == x.len() + suffix.len());
    assert((y + suffix).len() == y.len() + suffix.len());
    assert(x.len() == y.len());
    assert((x + suffix).take(x.len() as int) =~= x);
    assert((y + suffix).take(y.len() as int) =~= y);
}

/// What stands before the last slash is a fingerprint, whatever it holds.
proof fn lemma_fingerprint_apart(
    fingerprint_a: Seq<char>,
    za: Seq<char>,
    fingerprint_b: Seq<char>,
    zb: Seq<char>,
)
    requires
        lacks(za, '/'),
        lacks(zb, '/'),
        fingerprint_a + ("/parts["@ + za) == fingerprint_b + ("/parts["@ + zb),
    ensures
        fingerprint_a == fingerprint_b,
        za == zb,
{
    reveal_strlit("/parts[");
    let left = fingerprint_a + ("/parts["@ + za);
    let right = fingerprint_b + ("/parts["@ + zb);
    let m = fingerprint_a.len() as int;
    let n = fingerprint_b.len() as int;
    assert(left.len() == m + 7 + za.len() && right.len() == n + 7 + zb.len());
    assert(left[m] == '/' && right[n] == '/');
    if m < n {
        assert(left[n] == ("/parts["@ + za)[n - m]);
        if n - m >= 7 {
            assert(left[n] == za[n - m - 7]);
        }
    }
    if n < m {
        assert(right[m] == ("/parts["@ + zb)[m - n]);
        if m - n >= 7 {
            assert(right[m] == zb[m - n - 7]);
        }
    }
    assert(left.take(m) =~= fingerprint_a);
    assert(right.take(n) =~= fingerprint_b);
    assert(left.skip(m + 7) =~= za);
    assert(right.skip(n + 7) =~= zb);
}

/// A segment's UUID stands for its shard, its position, its config and its exact slices: the same of
/// all of them give the same UUID, and anything else another, as long as the hash behind a UUID tells
/// the two names apart.
pub proof fn segment_uuids_tell_segments_apart(
    shard_a: u32,
    seq_a: nat,
    fingerprint_a: Seq<char>,
    a: Seq<SliceView>,
    shard_b: u32,
    seq_b: nat,
    fingerprint_b: Seq<char>,
    b: Seq<SliceView>,
)
    requires
        forall|i: int| 0 <= i < a.len() ==> is_part_name((#[trigger] a[i]).part),
        forall|i: int| 0 <= i < b.len() ==> is_part_name((#[trigger] b[i]).part),
    ensures
        ({
            let x = segment_name(shard_a, seq_a, fingerprint_a, a);
            let y = segment_name(shard_b, seq_b, fingerprint_b, b);
            let u = ids::uuid_v5(ids::NAMESPACE_OID, x);
            let v = ids::uuid_v5(ids::NAMESPACE_OID, y);
            (u == v ==> x == y) ==> (u == v <==> shard_a == shard_b && seq_a == seq_b
                && fingerprint_a == fingerprint_b && a == b)
        }),
{
    if segment_name(shard_a, seq_a, fingerprint_a, a) == segment_name(
        shard_b,
        seq_b,
        fingerprint_b,
        b,
    ) {
        segment_names_are_unambiguous(
            shard_a,
            seq_a,
            fingerprint_a,
            a,
            shard_b,
            seq_b,
            fingerprint_b,
            b,
        );
    }
}

/// Planning is repeatable: the same parts under the same config give the same segments, slice by
/// slice, under the same UUIDs.
pub proof fn planning_is_repeatable(
    a: Seq<SegmentPlan>,
    b: Seq<SegmentPlan>,
    parts: Seq<(Seq<char>, nat)>,
    points_per_segment: nat,
    bytes_per_point: nat,
    shard_id: u32,
    config_fingerprint: Seq<char>,
)
    requires
        is_grouping(a, parts, points_per_segment, bytes_per_point, shard_id, config_fingerprint),
        is_grouping(b, parts, points_per_segment, bytes_per_point, shard_id, config_fingerprint),
    ensures
        a.len() == b.len(),
        forall|k: int|
            0 <= k < a.len() ==> {
                &&& (#[trigger] a[k]).seq == b[k].seq
                &&& a[k].uuid == b[k].uuid
                &&& slices_view(a[k].parts@) == slices_view(b[k].parts@)
                &&& a[k].points == b[k].points
                &&& a[k].vector_bytes == b[k].vector_bytes
            },
{
    assert forall|k: int| 0 <= k < a.len() implies {
        &&& (#[trigger] a[k]).seq == b[k].seq
        &&& a[k].uuid == b[k].uuid
        &&& slices_view(a[k].parts@) == slices_view(b[k].parts@)
        &&& a[k].points == b[k].points
        &&& a[k].vector_bytes == b[k].vector_bytes
    } by {
        assert(b[k].is_segment(
            k as nat,
            parts,
            b.len(),
            bytes_per_point,
            shard_id,
            config_fingerprint,
        ));
    }
}

/// The shards left to plan are those of the share that have no plan.
pub proof fn only_shards_without_a_plan_are_left(shards: Seq<u32>, planned: Seq<u32>, shard: u32)
    ensures
        without_plan(shards, planned).contains(shard) <==> shards.contains(shard)
            && !planned.contains(shard),
    decreases shards.len(),
{
    let left = without_plan(shards, planned);
    if shards.len() > 0 {
        let front = shards.drop_last();
        let rest = without_plan(front, planned);
        only_shards_without_a_plan_are_left(front, planned, shard);
        assert(shards =~= front.push(shards.last()));
        if front.contains(shard) {
            let i = front.index_of(shard);
            assert(shards[i] == shard);
        }
        if shards.contains(shard) && shard != shards.last() {
            let i = shards.index_of(shard);
            assert(front[i] == shard);
        }
        assert(shards[shards.len() - 1] == shards.last());
        if !planned.contains(shards.last()) {
            assert(left[left.len() - 1] == shards.last());
            if rest.contains(shard) {
                let i = rest.index_of(shard);
                assert(left[i] == shard);
            }
            if left.contains(shard) && shard != shards.last() {
                let i = left.index_of(shard);
                assert(rest[i] == shard);
            }
        }
    }
}

/// A run that planned every shard that was left leaves none to the next one, which skips the whole
/// share.
pub proof fn a_repeated_run_plans_nothing(shards: Seq<u32>, planned: Seq<u32>, added: Seq<u32>)
    requires
        forall|shard: u32| #[trigger]
            without_plan(shards, planned).contains(shard) ==> added.contains(shard),
    ensures
        without_plan(shards, planned + added).len() == 0,
{
    let left = without_plan(shards, planned + added);
    if left.len() > 0 {
        let shard = left[0];
        assert(left.contains(shard));
        only_shards_without_a_plan_are_left(shards, planned + added, shard);
        only_shards_without_a_plan_are_left(shards, planned, shard);
        if planned.contains(shard) {
            let i = planned.index_of(shard);
            assert((planned + added)[i] == shard);
        } else {
            let i = added.index_of(shard);
            assert((planned + added)[planned.len() + i] == shard);
        }
    }
}

/// Whether two plans say the same.
pub open spec fn same_plan(a: ShardPlan, b: ShardPlan) -> bool {
    &&& a.shard_id == b.shard_id
    &&& a.config_fingerprint@ == b.config_fingerprint@
    &&& a.max_segment_size_bytes == b.max_segment_size_bytes
    &&& a.merge_safe_min_bytes == b.merge_safe_min_bytes
    &&& a.bytes_per_point == b.bytes_per_point
    &&& a.points == b.points
    &&& a.segments@.len() == b.segments@.len()
    &&& forall|k: int|
        0 <= k < a.segments@.len() ==> {
            &&& (#[trigger] a.segments@[k]).seq == b.segments@[k].seq
            &&& a.segments@[k].uuid == b.segments@[k].uuid
            &&& slices_view(a.segments@[k].parts@) == slices_view(b.segments@[k].parts@)
            &&& a.segments@[k].points == b.segments@[k].points
            &&& a.segments@[k].vector_bytes == b.segments@[k].vector_bytes
        }
}

/// A plan run over every shard can be repeated. Once it has planned each shard that had no plan, the
/// same run skips them all and plans none; a run that is to plan again takes them all, skips none,
/// and plans each shard exactly as before, with as many workers as it likes.
pub proof fn a_plan_run_can_be_repeated(
    config: CollectionConfig,
    config_fingerprint: Seq<char>,
    shard_count: nat,
    planned: Seq<u32>,
    first: PlanScope,
    again: PlanScope,
    anew: PlanScope,
    shard_id: u32,
    parts: Seq<(Seq<char>, nat)>,
    plan: ShardPlan,
    replanned: ShardPlan,
)
    requires
        shard_count <= u32::MAX,
        is_scope(first, config, shard_count, None, false, planned),
        is_scope(again, config, shard_count, None, false, planned + first.pending@),
        is_scope(anew, config, shard_count, None, true, planned + first.pending@),
        is_plan(plan, config_fingerprint, first, shard_id, parts),
        is_plan(replanned, config_fingerprint, anew, shard_id, parts),
    ensures
        again.pending@.len() == 0,
        again.skipped == shard_count,
        anew.pending@ == all_shards(shard_count),
        anew.skipped == 0,
        same_plan(plan, replanned),
{
    let shards = shard_share(shard_count, None);
    a_repeated_run_plans_nothing(shards, planned, first.pending@);
    planning_is_repeatable(
        plan.segments@,
        replanned.segments@,
        parts,
        first.points_per_segment as nat,
        first.bytes_per_point as nat,
        shard_id,
        config_fingerprint,
    );
}

/// The serving cluster never merges what a plan run plans. Whatever a shard's parts hold, no two
/// segments of its plan are together smaller than the config's size limit, which it states in
/// kilobytes; at most one is smaller than half of it; and none is above it, unless it holds a single
/// point.
pub proof fn a_plan_run_makes_no_segments_to_merge(
    scope: PlanScope,
    config: CollectionConfig,
    shard_count: nat,
    slice: Option<(usize, usize)>,
    replan: bool,
    planned: Seq<u32>,
    plan: ShardPlan,
    config_fingerprint: Seq<char>,
    shard_id: u32,
    parts: Seq<(Seq<char>, nat)>,
)
    requires
        is_scope(scope, config, shard_count, slice, replan, planned),
        is_plan(plan, config_fingerprint, scope, shard_id, parts),
    ensures
        config.max_segment_size is Some,
        forall|i: int, j: int|
            0 <= i < j < plan.segments@.len() ==> (#[trigger] plan.segments@[i]).vector_bytes + (
            #[trigger] plan.segments@[j]).vector_bytes >= config.max_segment_size->0 * 1024,
        forall|i: int, j: int|
            0 <= i < j < plan.segments@.len() ==> 2 * (#[trigger] plan.segments@[i]).vector_bytes
                >= config.max_segment_size->0 * 1024 || 2 * (
            #[trigger] plan.segments@[j]).vector_bytes >= config.max_segment_size->0 * 1024,
        forall|i: int|
            0 <= i < plan.segments@.len() ==> (#[trigger] plan.segments@[i]).vector_bytes
                <= config.max_segment_size->0 * 1024 || plan.segments@[i].points == 1,
        plan.max_segment_size_bytes == config.max_segment_size->0 * 1024,
        plan.max_segment_size_bytes <= 2 * plan.merge_safe_min_bytes
            <= plan.max_segment_size_bytes + 1,
        point_size(config.vectors@) == Ok::<nat, Seq<char>>(plan.bytes_per_point as nat),
        forall|i: int|
            0 <= i < plan.segments@.len() && (#[trigger] plan.segments@[i]).vector_bytes < u64::MAX
                ==> plan.segments@[i].vector_bytes == plan.segments@[i].points
                * plan.bytes_per_point,
{
    let sizes = segment_sizes(plan.segments@);
    planned_segments_never_merge(
        plan.segments@,
        parts,
        scope.points_per_segment as nat,
        scope.bytes_per_point as nat,
        scope.max_bytes,
        shard_id,
        config_fingerprint,
    );
    segments_are_in_the_size_band(
        plan.segments@,
        parts,
        scope.points_per_segment as nat,
        scope.bytes_per_point as nat,
        shard_id,
        config_fingerprint,
    );
    assert forall|i: int, j: int| 0 <= i < j < plan.segments@.len() implies (
    #[trigger] plan.segments@[i]).vector_bytes + (#[trigger] plan.segments@[j]).vector_bytes
        >= config.max_segment_size->0 * 1024 by {
        assert(sizes[i] + sizes[j] >= scope.max_bytes);
    }
    if scope.bytes_per_point > scope.max_bytes {
        assert(scope.max_bytes / scope.bytes_per_point == 0) by (nonlinear_arith)
            requires
                0 <= scope.max_bytes < scope.bytes_per_point,
        ;
    }
}

/// A plan accounts for its shard: every record is in one segment, each segment counts as many points
/// as its slices take, and its bytes are those of that many points.
pub proof fn planned_segments_count_their_points(
    segments: Seq<SegmentPlan>,
    parts: Seq<(Seq<char>, nat)>,
    points_per_segment: nat,
    bytes_per_point: nat,
    shard_id: u32,
    config_fingerprint: Seq<char>,
    k: int,
)
    requires
        points_per_segment > 0,
        is_grouping(
            segments,
            parts,
            points_per_segment,
            bytes_per_point,
            shard_id,
            config_fingerprint,
        ),
        0 <= k < segments.len(),
    ensures
        records_of(slices_view(segments[k].parts@)).len() == segments[k].points,
        segments[k].seq == k,
        segments[k].points * bytes_per_point <= u64::MAX ==> segments[k].vector_bytes
            == segments[k].points * bytes_per_point,
        segments[k].points * bytes_per_point > u64::MAX ==> segments[k].vector_bytes == u64::MAX,
{
    let total = total_records(parts);
    let count = segments.len();
    assert(segments[k].is_segment(
        k as nat,
        parts,
        count,
        bytes_per_point,
        shard_id,
        config_fingerprint,
    ));
    let lo = segment_start(total, count, k as nat);
    let hi = segment_start(total, count, (k + 1) as nat);
    lemma_segment_start(total, count, k as nat);
    lemma_segment_start(total, count, (k + 1) as nat);
    lemma_all_records_len(parts);
    cut_holds_its_records(parts, lo, hi);
}

/// A point takes as many bytes as its dense vectors together, each the number of its dimensions times
/// the width of an element.
pub proof fn every_dense_vector_adds_its_bytes(
    vectors: Seq<(Seq<char>, VectorParams)>,
    name: Seq<char>,
    params: VectorParams,
)
    ensures
        ({
            let with = vectors.push((name, params));
            let bytes = params.size * (match params.datatype {
                Some(VectorStorageDatatype::Float16) => 2int,
                Some(VectorStorageDatatype::Uint8) | Some(VectorStorageDatatype::Turbo4) => 1int,
                Some(VectorStorageDatatype::Float32) | None => 4int,
            });
            &&& point_size(with) matches Ok(sum) ==> sum > 0 && sum <= u64::MAX && sum == bytes + (
            if vectors.len() == 0 {
                0
            } else {
                match point_size(vectors) {
                    Ok(rest) => rest as int,
                    Err(_) => 0,
                }
            })
            &&& vectors.len() == 0 && 0 < bytes <= u64::MAX ==> point_size(with) is Ok
            &&& point_size(vectors) matches Ok(rest) ==> (point_size(with) is Ok <==> rest + bytes
                <= u64::MAX)
        }),
{
    let with = vectors.push((name, params));
    assert(with.drop_last() =~= vectors);
    assert(gates::vector_bytes(params) == params.size * gates::element_bytes(params.datatype))
        by (nonlinear_arith)
        requires
            gates::vector_bytes(params) == gates::element_bytes(params.datatype)
                * params.size as nat,
    ;
}

/// A plan run takes exactly the shards of its share that have no plan, or all of its share where it
/// is to plan again, each once; the rest of the share is what it skips.
pub proof fn a_plan_run_takes_its_unplanned_shards(
    scope: PlanScope,
    config: CollectionConfig,
    shard_count: nat,
    slice: Option<(usize, usize)>,
    replan: bool,
    planned: Seq<u32>,
    shard: u32,
)
    requires
        shard_count <= u32::MAX,
        is_scope(scope, config, shard_count, slice, replan, planned),
        slice matches Some((index, total)) ==> index < total,
    ensures
        scope.pending@.contains(shard) <==> {
            &&& shard < shard_count
            &&& slice matches Some((index, total)) ==> shard as int % total as int == index
            &&& replan || !planned.contains(shard)
        },
        slice is None ==> scope.pending@.len() + scope.skipped == shard_count,
        replan ==> scope.skipped == 0,
{
    let all = all_shards(shard_count);
    let mine = shard_share(shard_count, slice);
    only_shards_without_a_plan_are_left(mine, planned, shard);
    match slice {
        Some((index, total)) => {
            lemma_stride_of_shards(shard_count, index as int, total as int, shard);
        },
        None => {
            if shard < shard_count {
                assert(all[shard as int] == shard);
            }
        },
    }
}

proof fn lemma_stride_of_shards(shard_count: nat, index: int, total: int, shard: u32)
    requires
        shard_count <= u32::MAX,
        0 <= index < total,
    ensures
        building::stride(all_shards(shard_count), index, total).contains(shard) <==> shard
            < shard_count && shard as int % total == index,
    decreases shard_count,
{
    let all = all_shards(shard_count);
    if shard_count > 0 {
        let rest = all_shards((shard_count - 1) as nat);
        assert(all.drop_last() =~= rest);
        lemma_stride_of_shards((shard_count - 1) as nat, index, total, shard);
        let front = building::stride(rest, index, total);
        let mine = building::stride(all, index, total);
        if front.contains(shard) {
            let i = front.index_of(shard);
            assert(mine[i] == shard);
        }
        if (shard_count - 1) % total == index {
            assert(mine[mine.len() - 1] == (shard_count - 1) as u32);
            if mine.contains(shard) && shard != shard_count - 1 {
                let i = mine.index_of(shard);
                assert(front[i] == shard);
            }
        }
    }
}

/// A file is what stands beside a part exactly where its name is more than the ending `.meta`, and
/// an uncommitted part exactly where its name is more than the ending `.tmp`.
pub proof fn extensions_are_told_by_the_ending(name: Seq<char>)
    ensures
        extension(name) == Some("meta"@) <==> name.len() > 5 && text::ends(name, ".meta"@),
        extension(name) == Some("tmp"@) <==> name.len() > 4 && text::ends(name, ".tmp"@),
{
    reveal_strlit("meta");
    reveal_strlit("tmp");
    reveal_strlit(".meta");
    reveal_strlit(".tmp");
    lemma_last_dot(name);
    let at = last_dot(name);
    let n = name.len();
    if text::ends(name, ".meta"@) {
        assert forall|i: int| 0 <= i < 5 implies name[n - 5 + i] == #[trigger] ".meta"@[i] by {
            assert(name.skip(n - 5)[i] == name[n - 5 + i]);
        }
        assert(name[n - 5 + 0] == ".meta"@[0]);
        assert(name[n - 5 + 1] == ".meta"@[1]);
        assert(name[n - 5 + 2] == ".meta"@[2]);
        assert(name[n - 5 + 3] == ".meta"@[3]);
        assert(name[n - 5 + 4] == ".meta"@[4]);
        assert(at == n - 5);
        assert(name.skip(at + 1) =~= "meta"@);
    }
    if text::ends(name, ".tmp"@) {
        assert forall|i: int| 0 <= i < 4 implies name[n - 4 + i] == #[trigger] ".tmp"@[i] by {
            assert(name.skip(n - 4)[i] == name[n - 4 + i]);
        }
        assert(name[n - 4 + 0] == ".tmp"@[0]);
        assert(name[n - 4 + 1] == ".tmp"@[1]);
        assert(name[n - 4 + 2] == ".tmp"@[2]);
        assert(name[n - 4 + 3] == ".tmp"@[3]);
        assert(at == n - 4);
        assert(name.skip(at + 1) =~= "tmp"@);
    }
    if extension(name) == Some("meta"@) {
        let ending = name.skip(at + 1);
        assert(ending.len() == 4);
        assert(name.skip(n - 5) =~= ".meta"@) by {
            assert forall|i: int| 0 <= i < 5 implies name.skip(n - 5)[i] == #[trigger] ".meta"@[i] by {
                if i > 0 {
                    assert(ending[i - 1] == name[at + i]);
                }
            }
        }
    }
    if extension(name) == Some("tmp"@) {
        let ending = name.skip(at + 1);
        assert(ending.len() == 3);
        assert(name.skip(n - 4) =~= ".tmp"@) by {
            assert forall|i: int| 0 <= i < 4 implies name.skip(n - 4)[i] == #[trigger] ".tmp"@[i] by {
                if i > 0 {
                    assert(ending[i - 1] == name[at + i]);
                }
            }
        }
    }
}

/// The last dot is a dot with none behind it; without one the place is zero.
proof fn lemma_last_dot(name: Seq<char>)
    ensures
        0 <= last_dot(name),
        name.len() > 0 ==> last_dot(name) < name.len(),
        last_dot(name) > 0 ==> name[last_dot(name)] == '.',
        forall|i: int| last_dot(name) < i < name.len() ==> #[trigger] name[i] != '.',
    decreases name.len(),
{
    if name.len() > 0 && name.last() != '.' {
        let rest = name.drop_last();
        lemma_last_dot(rest);
        assert forall|i: int| last_dot(name) < i < name.len() implies #[trigger] name[i] != '.' by {
            if i < rest.len() {
                assert(rest[i] == name[i]);
            }
        }
    }
}

/// The parts of a shard are all files of its directory but those that stand beside a part, each as
/// often as it is listed; and they are refused exactly where one of the files is uncommitted.
pub proof fn every_other_file_is_a_part(files: Seq<Seq<char>>, name: Seq<char>)
    ensures
        parts_among(files).to_multiset().count(name) == (if name.len() > 5 && text::ends(
            name,
            ".meta"@,
        ) {
            0
        } else {
            files.to_multiset().count(name)
        }),
        uncommitted(files, 0) is Some <==> exists|i: int|
            0 <= i < files.len() && (#[trigger] files[i]).len() > 4 && text::ends(
                files[i],
                ".tmp"@,
            ),
{
    lemma_parts_among(files, name);
    lemma_uncommitted(files, 0);
}

proof fn lemma_parts_among(files: Seq<Seq<char>>, name: Seq<char>)
    ensures
        parts_among(files).to_multiset().count(name) == (if name.len() > 5 && text::ends(
            name,
            ".meta"@,
        ) {
            0
        } else {
            files.to_multiset().count(name)
        }),
    decreases files.len(),
{
    broadcast use vstd::seq_lib::group_to_multiset_ensures;

    if files.len() > 0 {
        let rest = files.drop_last();
        lemma_parts_among(rest, name);
        extensions_are_told_by_the_ending(files.last());
        assert(files =~= rest.push(files.last()));
    }
}

proof fn lemma_uncommitted(files: Seq<Seq<char>>, from: int)
    requires
        0 <= from,
    ensures
        uncommitted(files, from) is Some <==> exists|i: int|
            from <= i < files.len() && (#[trigger] files[i]).len() > 4 && text::ends(
                files[i],
                ".tmp"@,
            ),
    decreases files.len() - from,
{
    if from < files.len() {
        lemma_uncommitted(files, from + 1);
        extensions_are_told_by_the_ending(files[from]);
    }
}

/// A plan is warned of exactly where two of its segments are below the floor, or its only one is.
pub proof fn warnings_are_of_short_segments(plan: ShardPlan)
    ensures
        review_notes(plan).len() > 0 <==> {
            ||| exists|i: int, j: int|
                0 <= i < j < plan.segments@.len() && (#[trigger] plan.segments@[i]).vector_bytes
                    < plan.merge_safe_min_bytes && (#[trigger] plan.segments@[j]).vector_bytes
                    < plan.merge_safe_min_bytes
            ||| plan.segments@.len() == 1 && plan.segments@[0].vector_bytes
                < plan.merge_safe_min_bytes
        },
{
    let floor = plan.merge_safe_min_bytes;
    if short_segments(plan.segments@, floor) > 1 {
        let (i, j) = lemma_two_short(plan.segments@, floor);
        assert(plan.segments@[i].vector_bytes < floor && plan.segments@[j].vector_bytes < floor);
    } else {
        assert forall|i: int, j: int|
            0 <= i < j < plan.segments@.len() && (#[trigger] plan.segments@[i]).vector_bytes
                < floor implies !((#[trigger] plan.segments@[j]).vector_bytes < floor) by {
            if plan.segments@[j].vector_bytes < floor {
                lemma_count_short(plan.segments@, floor, i, j);
            }
        }
    }
}

proof fn lemma_count_short(segments: Seq<SegmentPlan>, floor: u64, i: int, j: int)
    requires
        -1 <= i < j < segments.len(),
        i >= 0 ==> segments[i].vector_bytes < floor,
        segments[j].vector_bytes < floor,
    ensures
        short_segments(segments, floor) >= (if i >= 0 {
            2nat
        } else {
            1
        }),
    decreases segments.len(),
{
    let rest = segments.drop_last();
    if j < segments.len() - 1 {
        lemma_count_short(rest, floor, i, j);
    } else if i >= 0 {
        lemma_count_short(rest, floor, -1, i);
    }
}

/// A shard set is refused exactly where some shard has no part.
pub proof fn a_shard_without_parts_is_refused(shards: Seq<(u32, usize)>)
    ensures
        empty_shards(shards).len() > 0 <==> exists|i: int|
            0 <= i < shards.len() && (#[trigger] shards[i]).1 == 0,
    decreases shards.len(),
{
    if shards.len() > 0 {
        let rest = shards.drop_last();
        a_shard_without_parts_is_refused(rest);
        if exists|i: int| 0 <= i < rest.len() && (#[trigger] rest[i]).1 == 0 {
            let i = choose|i: int| 0 <= i < rest.len() && (#[trigger] rest[i]).1 == 0;
            assert(shards[i].1 == 0);
        }
        if shards.last().1 == 0 {
            assert(shards[shards.len() - 1].1 == 0);
        }
        if exists|i: int| 0 <= i < shards.len() && (#[trigger] shards[i]).1 == 0 {
            let i = choose|i: int| 0 <= i < shards.len() && (#[trigger] shards[i]).1 == 0;
            if i < rest.len() {
                assert(rest[i].1 == 0);
            }
        }
    }
}

/// A plan run starts exactly where it has workers, the config limits the size of a segment and gives
/// points a size, and the machine's slice, if there is one, holds a shard.
pub proof fn only_a_run_with_work_to_size_starts(
    config: LoadedConfig,
    shard_count: nat,
    options: PlanOptions,
)
    ensures
        scope_fault(config, shard_count, options) is None <==> {
            &&& options.workers > 0
            &&& config.config.max_segment_size is Some
            &&& point_size(config.config.vectors@) is Ok
            &&& options.slice matches Some((index, total)) ==> index < total && index < shard_count
        },
{
    if let Some((index, total)) = options.slice {
        if index < total {
            let all = all_shards(shard_count);
            if index < shard_count {
                building::slices_stride(all, total as nat, index as int);
                assert(index as int % total as int == index as int) by (nonlinear_arith)
                    requires
                        0 <= index < total,
                ;
            } else {
                lemma_no_stride(all, index as int, total as int);
            }
        }
    }
}

proof fn lemma_no_stride<T>(list: Seq<T>, index: int, total: int)
    requires
        list.len() <= index < total,
    ensures
        building::stride(list, index, total).len() == 0,
    decreases list.len(),
{
    if list.len() > 0 {
        lemma_no_stride(list.drop_last(), index, total);
        let at = list.len() - 1;
        assert(at % total == at) by (nonlinear_arith)
            requires
                0 <= at < total,
        ;
    }
}

} // verus!
