//! Turning built segments into a restorable shard directory.
//!
//! A shard directory holds `segments/` when it comes out of the build. Assembly adds the files that
//! a shard snapshot carries: an empty write-ahead log, the last applied operation, the payload index
//! schema, the replica state and the shard config.
//!
//! Segment versions are counted by each segment for itself. The log must start above the highest of
//! them, or the first write after a restore would take an operation number that a segment has seen,
//! and the segment would skip it without a word.
use vstd::prelude::*;
use vstd::string::*;
use crate::building::BuildFingerprint;
use crate::config::LoadedConfig;
use crate::ids;
use crate::json;
use crate::json::{Json, JsonValue};
use crate::names;
use crate::names::NameMap;
use crate::payload_index::{CreateIndex, FieldSchema, PayloadIndexSchema};
use crate::text;

verus! {

/// The directory of segments that are being written.
pub const TEMP_SEGMENTS_PATH: &'static str = "temp_segments";

/// An entry of a directory.
#[derive(Debug)]
pub struct DirEntry {
    pub name: String,
    pub is_dir: bool,
}

/// Whether an entry is a segment directory: not hidden, and not scratch space.
pub open spec fn is_segment_dir(entry: DirEntry) -> bool {
    entry.is_dir && !text::begins(entry.name@, "."@) && entry.name@ != TEMP_SEGMENTS_PATH@
}

/// The names of the segment directories among the entries.
pub open spec fn segment_names(entries: Seq<DirEntry>) -> Seq<Seq<char>>
    decreases entries.len(),
{
    if entries.len() == 0 {
        Seq::empty()
    } else {
        let front = segment_names(entries.drop_last());
        if is_segment_dir(entries.last()) {
            front.push(entries.last().name@)
        } else {
            front
        }
    }
}

/// Segment directories in order, skipping scratch and hidden entries.
pub fn segment_dirs(entries: &Vec<DirEntry>) -> (dirs: Vec<String>)
    ensures
        text::sorted_texts(text::texts(dirs@)),
        text::texts(dirs@).to_multiset() == segment_names(entries@).to_multiset(),
{
    let mut dirs: Vec<String> = Vec::new();
    let mut i: usize = 0;
    assert(entries@.take(0) =~= Seq::empty());
    assert(text::texts(dirs@) =~= Seq::empty());
    while i < entries.len()
        invariant
            i <= entries.len(),
            text::texts(dirs@) == segment_names(entries@.take(i as int)),
        decreases entries.len() - i,
    {
        assert(entries@.take(i + 1).drop_last() =~= entries@.take(i as int));
        let ghost was = dirs@;
        let entry = &entries[i];
        if entry.is_dir && !text::starts_with(entry.name.as_str(), ".") && !text::same(
            entry.name.as_str(),
            TEMP_SEGMENTS_PATH,
        ) {
            dirs.push(entry.name.clone());
            assert(text::texts(dirs@) =~= text::texts(was).push(entry.name@));
        }
        i = i + 1;
    }
    assert(entries@.take(entries@.len() as int) =~= entries@);
    text::sort_names(dirs)
}

/// The shard id in a directory name, where there is one.
pub open spec fn shard_id_in(entry: DirEntry) -> Option<u32> {
    if entry.is_dir && text::begins(entry.name@, "shard_"@) {
        match text::number_in(entry.name@.skip("shard_"@.len() as int), u32::MAX as nat) {
            Some(id) => Some(id as u32),
            None => None,
        }
    } else {
        None
    }
}

/// A list with an item put behind all those whose id is not larger.
pub open spec fn insert_by_id(list: Seq<(u32, Seq<char>)>, item: (u32, Seq<char>)) -> Seq<
    (u32, Seq<char>),
>
    decreases list.len(),
{
    if list.len() == 0 || list.last().0 <= item.0 {
        list.push(item)
    } else {
        insert_by_id(list.drop_last(), item).push(list.last())
    }
}

/// The shard directories among the entries in the order of their ids, those with one id in the order
/// in which they are listed.
pub open spec fn shards_in(entries: Seq<DirEntry>) -> Seq<(u32, Seq<char>)>
    decreases entries.len(),
{
    if entries.len() == 0 {
        Seq::empty()
    } else {
        match shard_id_in(entries.last()) {
            Some(id) => insert_by_id(shards_in(entries.drop_last()), (id, entries.last().name@)),
            None => shards_in(entries.drop_last()),
        }
    }
}

/// Ids and names of a list of shards.
pub open spec fn shards_view(list: Seq<(u32, String)>) -> Seq<(u32, Seq<char>)> {
    Seq::new(list.len(), |i: int| (list[i].0, list[i].1@))
}

/// Inserting keeps the length and puts the item at one place.
proof fn lemma_insert_at(list: Seq<(u32, Seq<char>)>, item: (u32, Seq<char>), at: int)
    requires
        0 <= at <= list.len(),
        at > 0 ==> list[at - 1].0 <= item.0,
        forall|k: int| at <= k < list.len() ==> (#[trigger] list[k]).0 > item.0,
    ensures
        insert_by_id(list, item) == list.insert(at, item),
    decreases list.len(),
{
    if at == list.len() {
        assert(list.insert(at, item) =~= list.push(item));
        if list.len() > 0 {
            assert(list.last() == list[at - 1]);
        }
    } else {
        assert(list.last() == list[list.len() - 1]);
        assert forall|k: int| at <= k < list.drop_last().len() implies (
        #[trigger] list.drop_last()[k]).0 > item.0 by {
            assert(list.drop_last()[k] == list[k]);
        }
        lemma_insert_at(list.drop_last(), item, at);
        assert(list.insert(at, item) =~= list.drop_last().insert(at, item).push(list.last()));
    }
}

fn insert_shard(list: &mut Vec<(u32, String)>, id: u32, name: String)
    ensures
        shards_view(final(list)@) == insert_by_id(shards_view(old(list)@), (id, name@)),
{
    let ghost before = shards_view(list@);
    let ghost added = name@;
    let mut at: usize = list.len();
    while at > 0 && list[at - 1].0 > id
        invariant
            at <= list.len(),
            before == shards_view(list@),
            forall|k: int| at <= k < before.len() ==> (#[trigger] before[k]).0 > id,
        decreases at,
    {
        assert(before[at - 1].0 == list@[at - 1].0);
        at = at - 1;
    }
    proof {
        if at > 0 {
            assert(before[at - 1].0 == list@[at - 1].0);
        }
        lemma_insert_at(before, (id, added), at as int);
    }
    list.insert(at, (id, name));
    assert(shards_view(list@) =~= before.insert(at as int, (id, added)));
}

/// Every `shard_N` directory under an output root, in the order of the ids.
pub fn discover_shards(out: &str, entries: &Vec<DirEntry>) -> (shards: Result<
    Vec<(u32, String)>,
    String,
>)
    ensures
        match shards {
            Ok(shards) => shards_view(shards@) == shards_in(entries@) && shards@.len() > 0,
            Err(message) => shards_in(entries@).len() == 0 && message@
                == "no shard_N directories found under "@ + out@,
        },
{
    let mut shards: Vec<(u32, String)> = Vec::new();
    let mut i: usize = 0;
    assert(entries@.take(0) =~= Seq::empty());
    assert(shards_view(shards@) =~= Seq::empty());
    while i < entries.len()
        invariant
            i <= entries.len(),
            shards_view(shards@) == shards_in(entries@.take(i as int)),
        decreases entries.len() - i,
    {
        assert(entries@.take(i + 1).drop_last() =~= entries@.take(i as int));
        let entry = &entries[i];
        if entry.is_dir {
            match text::strip_prefix(entry.name.as_str(), "shard_") {
                Some(digits) => match text::parse_number(digits, u32::MAX as u64) {
                    Some(id) => insert_shard(&mut shards, id as u32, entry.name.clone()),
                    None => {},
                },
                None => {},
            }
        }
        i = i + 1;
    }
    assert(entries@.take(entries@.len() as int) =~= entries@);
    if shards.len() == 0 {
        assert(shards_in(entries@) =~= Seq::empty());
        return Err(text::cat2("no shard_N directories found under ", out));
    }
    Ok(shards)
}

/// Discovered shards are in the order of their ids.
pub proof fn discovered_shards_are_in_order(entries: Seq<DirEntry>)
    ensures
        forall|i: int, j: int|
            0 <= i < j < shards_in(entries).len() ==> (#[trigger] shards_in(entries)[i]).0 <= (
            #[trigger] shards_in(entries)[j]).0,
    decreases entries.len(),
{
    if entries.len() > 0 {
        discovered_shards_are_in_order(entries.drop_last());
        match shard_id_in(entries.last()) {
            Some(id) => lemma_insert_sorted(
                shards_in(entries.drop_last()),
                (id, entries.last().name@),
            ),
            None => {},
        }
    }
}

proof fn lemma_insert_sorted(list: Seq<(u32, Seq<char>)>, item: (u32, Seq<char>))
    requires
        forall|i: int, j: int|
            0 <= i < j < list.len() ==> (#[trigger] list[i]).0 <= (#[trigger] list[j]).0,
    ensures
        insert_by_id(list, item).len() == list.len() + 1,
        forall|i: int, j: int|
            0 <= i < j < insert_by_id(list, item).len() ==> (#[trigger] insert_by_id(
                list,
                item,
            )[i]).0 <= (#[trigger] insert_by_id(list, item)[j]).0,
        forall|i: int|
            0 <= i < insert_by_id(list, item).len() ==> (#[trigger] insert_by_id(list, item)[i]).0
                <= item.0 || (list.len() > 0 && insert_by_id(list, item)[i].0 <= list.last().0),
    decreases list.len(),
{
    let after = insert_by_id(list, item);
    if list.len() == 0 || list.last().0 <= item.0 {
        assert(after == list.push(item));
        assert forall|i: int, j: int| 0 <= i < j < after.len() implies (#[trigger] after[i]).0 <= (
        #[trigger] after[j]).0 by {
            if j == list.len() {
                if i < list.len() - 1 {
                    assert(list[i].0 <= list[list.len() - 1].0);
                }
            } else {
                assert(list[i].0 <= list[j].0);
            }
        }
    } else {
        let rest = list.drop_last();
        assert forall|i: int, j: int| 0 <= i < j < rest.len() implies (#[trigger] rest[i]).0 <= (
        #[trigger] rest[j]).0 by {
            assert(list[i].0 <= list[j].0);
        }
        lemma_insert_sorted(rest, item);
        let front = insert_by_id(rest, item);
        assert(after == front.push(list.last()));
        assert forall|i: int, j: int| 0 <= i < j < after.len() implies (#[trigger] after[i]).0 <= (
        #[trigger] after[j]).0 by {
            if j == front.len() {
                assert(after[i] == front[i]);
                if rest.len() > 0 {
                    assert(rest.last() == list[list.len() - 2]);
                    assert(list[list.len() - 2].0 <= list[list.len() - 1].0);
                }
            } else {
                assert(front[i].0 <= front[j].0);
            }
        }
    }
}

/// A field index that a segment carries.
#[derive(Debug)]
pub struct FoundIndex {
    /// Whether the server takes the definition for the one that the document declares, so that it
    /// would not build the index again.
    pub same: bool,
    /// The definition in the segment, for a reader.
    pub segment_definition: String,
    /// The definition in the document, for a reader.
    pub document_definition: String,
}

/// What is on disk of one segment.
pub struct BuiltSegment {
    /// The name of its directory.
    pub name: String,
    /// The number of the last operation applied to it; none where it is empty.
    pub version: Option<u64>,
    /// Whether it takes new points.
    pub appendable: bool,
    pub indexed_fields: NameMap<FoundIndex>,
}

/// What is on disk of one shard.
pub struct ShardContents {
    pub path: String,
    pub segments_path: String,
    /// The segments in the order of their names; none where there is no segments directory.
    pub segments: Option<Vec<BuiltSegment>>,
    /// The fingerprints stamped on the shard.
    pub stamped: Option<BuildFingerprint>,
}

/// Result of assembling one shard.
#[derive(Debug, Clone, Copy, PartialEq, Eq, Structural)]
pub struct AssembleReport {
    pub shard_id: u32,
    pub segments: usize,
    /// Highest version across the shard's segments.
    pub max_segment_version: u64,
    /// Index that the assembled log's next append will return.
    pub wal_base: u64,
}

/// What has to be written to assemble a shard.
pub struct Assembly {
    pub report: AssembleReport,
    /// The field indexes of the empty segment to add; none where a segment takes new points already.
    pub appendable: Option<Vec<CreateIndex>>,
    /// The body of the applied-sequence file.
    pub applied_seq: Json,
    /// The body of the payload index file.
    pub payload_index: Json,
    /// The body of the replica state file.
    pub replica_state: Json,
    /// The hash-ring scale to stamp on the shard config.
    pub ring_scale: u32,
}

/// What is said of a directory name that is no UUID.
pub open spec fn not_uuid_text(name: Seq<char>) -> Seq<char> {
    "segment directory name '"@ + name
        + "' is not a UUID; Qdrant would rename it at load and the plan's pinned UUID would no longer match"@
}

/// The first segment from position `from` whose directory name is no UUID.
pub open spec fn odd_name(segments: Seq<BuiltSegment>, from: int) -> Option<Seq<char>>
    decreases segments.len() - from,
{
    if from < 0 || from >= segments.len() {
        None
    } else if ids::uuid_in(segments[from].name@) is None {
        Some(segments[from].name@)
    } else {
        odd_name(segments, from + 1)
    }
}

/// The versions of the segments that have one.
pub open spec fn versions_of(segments: Seq<BuiltSegment>) -> Seq<u64>
    decreases segments.len(),
{
    if segments.len() == 0 {
        Seq::empty()
    } else {
        match segments.last().version {
            Some(version) => versions_of(segments.drop_last()).push(version),
            None => versions_of(segments.drop_last()),
        }
    }
}

/// Versions of every segment. A segment without a version has never had an operation applied and is
/// skipped: the empty segment that assembly adds is just such a one.
pub fn segment_versions(segments: &Vec<BuiltSegment>) -> (versions: Result<Vec<u64>, String>)
    ensures
        match versions {
            Ok(versions) => odd_name(segments@, 0) is None && versions@ == versions_of(segments@),
            Err(message) => match odd_name(segments@, 0) {
                Some(name) => message@ == not_uuid_text(name),
                None => false,
            },
        },
{
    let mut versions: Vec<u64> = Vec::new();
    let mut i: usize = 0;
    assert(segments@.take(0) =~= Seq::empty());
    while i < segments.len()
        invariant
            i <= segments.len(),
            odd_name(segments@, 0) == odd_name(segments@, i as int),
            versions@ == versions_of(segments@.take(i as int)),
        decreases segments.len() - i,
    {
        assert(segments@.take(i + 1).drop_last() =~= segments@.take(i as int));
        match ids::parse_uuid(segments[i].name.as_str()) {
            Ok(_) => {},
            Err(_) => {
                return Err(
                    text::cat3(
                        "segment directory name '",
                        segments[i].name.as_str(),
                        "' is not a UUID; Qdrant would rename it at load and the plan's pinned UUID would no longer match",
                    ),
                );
            },
        }
        match segments[i].version {
            Some(version) => versions.push(version),
            None => {},
        }
        i = i + 1;
    }
    assert(segments@.take(segments@.len() as int) =~= segments@);
    Ok(versions)
}

/// The highest version, or zero where there is none.
pub open spec fn highest(versions: Seq<u64>) -> u64
    decreases versions.len(),
{
    if versions.len() == 0 {
        0
    } else if versions.last() > highest(versions.drop_last()) {
        versions.last()
    } else {
        highest(versions.drop_last())
    }
}

fn highest_version(versions: &Vec<u64>) -> (max: u64)
    ensures
        max == highest(versions@),
{
    let mut max: u64 = 0;
    let mut i: usize = 0;
    assert(versions@.take(0) =~= Seq::empty());
    while i < versions.len()
        invariant
            i <= versions.len(),
            max == highest(versions@.take(i as int)),
        decreases versions.len() - i,
    {
        assert(versions@.take(i + 1).drop_last() =~= versions@.take(i as int));
        if versions[i] > max {
            max = versions[i];
        }
        i = i + 1;
    }
    assert(versions@.take(versions@.len() as int) =~= versions@);
    max
}

/// No version is higher than the highest, which is one of them.
pub proof fn lemma_highest(versions: Seq<u64>)
    ensures
        forall|i: int| 0 <= i < versions.len() ==> #[trigger] versions[i] <= highest(versions),
        versions.len() > 0 ==> versions.contains(highest(versions)),
    decreases versions.len(),
{
    if versions.len() > 0 {
        let rest = versions.drop_last();
        lemma_highest(rest);
        assert forall|i: int| 0 <= i < versions.len() implies #[trigger] versions[i] <= highest(
            versions,
        ) by {
            if i < rest.len() {
                assert(rest[i] == versions[i]);
            }
        }
        if versions.last() > highest(rest) {
            assert(versions[versions.len() - 1] == highest(versions));
        } else if rest.len() > 0 {
            let k = choose|k: int| 0 <= k < rest.len() && rest[k] == highest(rest);
            assert(versions[k] == highest(versions));
        } else {
            assert(versions[0] == highest(versions));
        }
    }
}

/// What is wrong with a declared index on a segment, from position `from` of the declared ones.
pub open spec fn declared_fault(
    segment: Seq<char>,
    found: Seq<(Seq<char>, FoundIndex)>,
    declared: Seq<(Seq<char>, FieldSchema)>,
    from: int,
) -> Option<Seq<char>>
    decreases declared.len() - from,
{
    if from < 0 || from >= declared.len() {
        None
    } else {
        let field = declared[from].0;
        match names::value_of(found, field) {
            Some(index) => if index.same {
                declared_fault(segment, found, declared, from + 1)
            } else {
                Some(
                    ("segment "@ + segment + " carries payload index `"@ + field
                        + "` with a different definition than the document declares:\n  segment:  "@)
                        + (index.segment_definition@ + "\n  document: "@
                        + index.document_definition@
                        + "\n\nThe document's `payload_index` section must be the one the segments were built against; rebuild if it was edited."@),
                )
            },
            None => Some(
                "segment "@ + segment + " is missing the declared payload index `"@ + field
                    + "`. If a build was resumed against an edited document, the segments are inconsistent and must be rebuilt."@,
            ),
        }
    }
}

/// What is wrong with the field indexes of a segment: a declared one that is missing or different,
/// or one that is not declared.
pub open spec fn index_fault(
    segment: Seq<char>,
    found: Seq<(Seq<char>, FoundIndex)>,
    declared: Seq<(Seq<char>, FieldSchema)>,
) -> Option<Seq<char>> {
    match declared_fault(segment, found, declared, 0) {
        Some(message) => Some(message),
        None => {
            let extra = names::left_out(names::keys(found), names::key_set(declared));
            if extra.len() > 0 {
                Some(
                    "segment "@ + segment + " carries payload index `"@ + extra[0]
                        + "` that the document does not declare; rebuild against the correct document."@,
                )
            } else {
                None
            }
        },
    }
}

/// What is wrong with the field indexes of the segments from position `from`.
pub open spec fn indexes_fault(
    segments: Seq<BuiltSegment>,
    declared: Seq<(Seq<char>, FieldSchema)>,
    from: int,
) -> Option<Seq<char>>
    decreases segments.len() - from,
{
    if from < 0 || from >= segments.len() {
        None
    } else {
        match index_fault(segments[from].name@, segments[from].indexed_fields@, declared) {
            Some(message) => Some(message),
            None => indexes_fault(segments, declared, from + 1),
        }
    }
}

fn check_indexes(segment: &BuiltSegment, declared: &NameMap<FieldSchema>) -> (outcome: Result<
    (),
    String,
>)
    ensures
        match outcome {
            Ok(()) => index_fault(segment.name@, segment.indexed_fields@, declared@) is None,
            Err(message) => index_fault(segment.name@, segment.indexed_fields@, declared@) == Some(
                message@,
            ),
        },
{
    let mut i: usize = 0;
    while i < declared.len()
        invariant
            i <= declared@.len(),
            declared_fault(segment.name@, segment.indexed_fields@, declared@, 0) == declared_fault(
                segment.name@,
                segment.indexed_fields@,
                declared@,
                i as int,
            ),
        decreases declared@.len() - i,
    {
        let field = declared.name_at(i);
        match segment.indexed_fields.get(field.as_str()) {
            Some(index) => if !index.same {
                let mut message = text::cat5(
                    "segment ",
                    segment.name.as_str(),
                    " carries payload index `",
                    field.as_str(),
                    "` with a different definition than the document declares:\n  segment:  ",
                );
                let definitions = text::cat4(
                    index.segment_definition.as_str(),
                    "\n  document: ",
                    index.document_definition.as_str(),
                    "\n\nThe document's `payload_index` section must be the one the segments were built against; rebuild if it was edited.",
                );
                message.append(definitions.as_str());
                return Err(message);
            },
            None => {
                return Err(
                    text::cat5(
                        "segment ",
                        segment.name.as_str(),
                        " is missing the declared payload index `",
                        field.as_str(),
                        "`. If a build was resumed against an edited document, the segments are inconsistent and must be rebuilt.",
                    ),
                );
            },
        }
        i = i + 1;
    }
    let list = segment.indexed_fields.names();
    let extra = names::names_left_out(&list, declared);
    if extra.len() > 0 {
        assert(text::texts(extra@)[0] == extra@[0]@);
        return Err(
            text::cat5(
                "segment ",
                segment.name.as_str(),
                " carries payload index `",
                extra[0].as_str(),
                "` that the document does not declare; rebuild against the correct document.",
            ),
        );
    }
    Ok(())
}

/// Check that every built segment carries exactly the declared field indexes, each as declared. A
/// shard that claims an index which its segments lack has it built over every point at load.
pub fn verify_segment_indexes(segments: &Vec<BuiltSegment>, declared: &PayloadIndexSchema) -> (
outcome: Result<(), String>)
    ensures
        match outcome {
            Ok(()) => indexes_fault(segments@, declared.schema@, 0) is None,
            Err(message) => indexes_fault(segments@, declared.schema@, 0) == Some(message@),
        },
{
    let mut i: usize = 0;
    while i < segments.len()
        invariant
            i <= segments.len(),
            indexes_fault(segments@, declared.schema@, 0) == indexes_fault(
                segments@,
                declared.schema@,
                i as int,
            ),
        decreases segments.len() - i,
    {
        match check_indexes(&segments[i], &declared.schema) {
            Ok(()) => {},
            Err(message) => {
                return Err(message);
            },
        }
        i = i + 1;
    }
    Ok(())
}

/// Whether one of the segments takes new points.
pub open spec fn takes_points(segments: Seq<BuiltSegment>) -> bool {
    exists|i: int| 0 <= i < segments.len() && (#[trigger] segments[i]).appendable
}

/// How many segments take new points.
pub open spec fn appendable_count(segments: Seq<BuiltSegment>) -> nat
    decreases segments.len(),
{
    if segments.len() == 0 {
        0
    } else {
        appendable_count(segments.drop_last()) + (if segments.last().appendable {
            1nat
        } else {
            0
        })
    }
}

/// How many segments take new points.
pub fn appendable_segment_count(segments: &Vec<BuiltSegment>) -> (count: usize)
    ensures
        count == appendable_count(segments@),
        count > 0 <==> takes_points(segments@),
{
    let mut count: usize = 0;
    let mut i: usize = 0;
    assert(segments@.take(0) =~= Seq::empty());
    while i < segments.len()
        invariant
            i <= segments.len(),
            count <= i,
            count == appendable_count(segments@.take(i as int)),
            count > 0 <==> (exists|k: int| 0 <= k < i && (#[trigger] segments@[k]).appendable),
        decreases segments.len() - i,
    {
        assert(segments@.take(i + 1).drop_last() =~= segments@.take(i as int));
        if segments[i].appendable {
            count = count + 1;
            assert(segments@[i as int].appendable);
        }
        i = i + 1;
    }
    assert(segments@.take(segments@.len() as int) =~= segments@);
    count
}

/// The field indexes that an empty segment must carry, where one has to be added: a shard must
/// always have somewhere to accept writes, and every segment the same indexes.
pub fn ensure_appendable_segment(
    segments: &Vec<BuiltSegment>,
    payload_index: Option<&PayloadIndexSchema>,
) -> (indexes: Option<Vec<CreateIndex>>)
    ensures
        match indexes {
            Some(indexes) => !takes_points(segments@) && creates(indexes@, payload_index),
            None => takes_points(segments@),
        },
{
    if appendable_segment_count(segments) > 0 {
        return None;
    }
    match payload_index {
        Some(schema) => Some(schema.create_operations()),
        None => Some(Vec::new()),
    }
}

/// Whether the operations create the declared field indexes, in the order of their fields.
pub open spec fn creates(
    operations: Seq<CreateIndex>,
    payload_index: Option<&PayloadIndexSchema>,
) -> bool {
    match payload_index {
        Some(schema) => {
            &&& operations.len() == schema.schema@.len()
            &&& forall|i: int|
                0 <= i < operations.len() ==> (#[trigger] operations[i]).field_name@
                    == schema.schema@[i].0 && operations[i].field_schema@
                    == schema.schema@[i].1.definition@
        },
        None => operations.len() == 0,
    }
}

/// The fields of a schema with their definitions.
pub open spec fn schema_members(schema: Seq<(Seq<char>, FieldSchema)>) -> Seq<
    (Seq<char>, JsonValue),
> {
    Seq::new(schema.len(), |i: int| (schema[i].0, schema[i].1.definition@))
}

/// The body of the payload index file: the declared fields with their definitions.
pub open spec fn payload_index_value(payload_index: Option<&PayloadIndexSchema>) -> JsonValue {
    JsonValue::Object(
        seq![
            (
                "schema"@,
                JsonValue::Object(
                    match payload_index {
                        Some(schema) => schema_members(schema.schema@),
                        None => Seq::empty(),
                    },
                ),
            ),
        ],
    )
}

/// One member of an object.
proof fn lemma_one_member(members: Seq<(String, Json)>)
    requires
        members.len() == 1,
    ensures
        json::members_view(members) == seq![(members[0].0@, members[0].1@)],
{
    json::lemma_members_at(members);
    assert(json::members_view(members) =~= seq![(members[0].0@, members[0].1@)]);
}

fn payload_index_json(payload_index: Option<&PayloadIndexSchema>) -> (body: Json)
    ensures
        body@ == payload_index_value(payload_index),
{
    let mut fields: Vec<(String, Json)> = Vec::new();
    match payload_index {
        Some(schema) => {
            let operations = schema.create_operations();
            let mut i: usize = 0;
            while i < operations.len()
                invariant
                    i <= operations.len(),
                    creates(operations@, Some(schema)),
                    fields@.len() == i,
                    forall|k: int|
                        0 <= k < i ==> (#[trigger] fields@[k]).0@ == schema.schema@[k].0
                            && fields@[k].1@ == schema.schema@[k].1.definition@,
                decreases operations.len() - i,
            {
                assert(operations@[i as int].field_name@ == schema.schema@[i as int].0);
                fields.push(
                    (operations[i].field_name.clone(), operations[i].field_schema.copy()),
                );
                i = i + 1;
            }
            proof {
                json::lemma_members_at(fields@);
                assert(json::members_view(fields@) =~= schema_members(schema.schema@));
            }
        },
        None => {
            proof {
                json::lemma_members_at(fields@);
                assert(json::members_view(fields@) =~= Seq::empty());
            }
        },
    }
    let mut members: Vec<(String, Json)> = Vec::new();
    members.push(("schema".to_owned(), Json::Object(fields)));
    proof {
        lemma_one_member(members@);
    }
    Json::Object(members)
}

/// The body of the applied-sequence file.
pub open spec fn applied_seq_value(op_num: u64) -> JsonValue {
    JsonValue::Object(seq![("op_num"@, JsonValue::Unsigned(op_num))])
}

fn applied_seq_json(op_num: u64) -> (body: Json)
    ensures
        body@ == applied_seq_value(op_num),
{
    let mut members: Vec<(String, Json)> = Vec::new();
    members.push(("op_num".to_owned(), Json::Unsigned(op_num)));
    proof {
        lemma_one_member(members@);
    }
    Json::Object(members)
}

/// The body of the replica state file: a local replica, active on a placeholder peer. Whichever node
/// loads the shard puts itself in the placeholder's place, so the entry has to be there to be moved.
pub open spec fn replica_state_value() -> JsonValue {
    JsonValue::Object(
        seq![
            ("is_local"@, JsonValue::Bool(true)),
            ("this_peer_id"@, JsonValue::Unsigned(0)),
            ("peers"@, JsonValue::Object(seq![("0"@, JsonValue::Text("Active"@))])),
        ],
    )
}

fn replica_state_json() -> (body: Json)
    ensures
        body@ == replica_state_value(),
{
    let mut peers: Vec<(String, Json)> = Vec::new();
    peers.push(("0".to_owned(), Json::Text("Active".to_owned())));
    proof {
        lemma_one_member(peers@);
    }
    let mut members: Vec<(String, Json)> = Vec::new();
    members.push(("is_local".to_owned(), Json::Bool(true)));
    members.push(("this_peer_id".to_owned(), Json::Unsigned(0)));
    members.push(("peers".to_owned(), Json::Object(peers)));
    proof {
        json::lemma_members_at(members@);
        assert(json::members_view(members@) =~= seq![
            ("is_local"@, JsonValue::Bool(true)),
            ("this_peer_id"@, JsonValue::Unsigned(0)),
            ("peers"@, JsonValue::Object(seq![("0"@, JsonValue::Text("Active"@))])),
        ]);
    }
    Json::Object(members)
}

/// Why a shard was not built under the document given to assemble.
pub open spec fn stamp_fault(
    shard: Seq<char>,
    stamped: Option<BuildFingerprint>,
    fingerprint: Seq<char>,
) -> Option<Seq<char>> {
    match stamped {
        None => Some(
            shard
                + " has no build fingerprint (.sb-build-fingerprint); it was not produced by this tool's build phase, or is from an incompatible version. Refusing to assemble an unverifiable shard."@,
        ),
        Some(stamped) => if stamped.full@ != fingerprint {
            Some(
                shard
                    + " was built under a different document than the one given to assemble:\n  built:    "@
                    + stamped.full@ + "\n  assemble: "@ + fingerprint
                    + "\n\nThe build and assemble phases must use the same document \u{2014} assemble writes `shard_config.json` (hash-ring scale) and `payload_index.json` from the document it is given, so a mismatch would ship a shard that misroutes or rebuilds indexes at load. Re-run assemble with the build's document."@,
            )
        } else {
            None
        },
    }
}

fn check_stamp(shard: &str, stamped: &Option<BuildFingerprint>, fingerprint: &str) -> (outcome:
    Result<(), String>)
    ensures
        match outcome {
            Ok(()) => stamp_fault(shard@, *stamped, fingerprint@) is None,
            Err(message) => stamp_fault(shard@, *stamped, fingerprint@) == Some(message@),
        },
{
    match stamped {
        None => Err(
            text::cat2(
                shard,
                " has no build fingerprint (.sb-build-fingerprint); it was not produced by this tool's build phase, or is from an incompatible version. Refusing to assemble an unverifiable shard.",
            ),
        ),
        Some(stamped) => if !text::same(stamped.full.as_str(), fingerprint) {
            Err(
                text::cat6(
                    shard,
                    " was built under a different document than the one given to assemble:\n  built:    ",
                    stamped.full.as_str(),
                    "\n  assemble: ",
                    fingerprint,
                    "\n\nThe build and assemble phases must use the same document \u{2014} assemble writes `shard_config.json` (hash-ring scale) and `payload_index.json` from the document it is given, so a mismatch would ship a shard that misroutes or rebuilds indexes at load. Re-run assemble with the build's document.",
                ),
            )
        } else {
            Ok(())
        },
    }
}

/// Why a shard cannot be assembled under a document.
pub open spec fn assemble_fault(
    shard: ShardContents,
    fingerprint: Seq<char>,
    payload_index: Option<&PayloadIndexSchema>,
) -> Option<Seq<char>> {
    match shard.segments {
        None => Some(
            shard.path@ + " has no segments directory; run the build phase first"@,
        ),
        Some(segments) => match stamp_fault(shard.path@, shard.stamped, fingerprint) {
            Some(message) => Some(message),
            None => match odd_name(segments@, 0) {
                Some(name) => Some(not_uuid_text(name)),
                None => if versions_of(segments@).len() == 0 {
                    Some(
                        shard.segments_path@
                            + " contains no segments; a shard with no segments cannot be loaded"@,
                    )
                } else if highest(versions_of(segments@)) == u64::MAX {
                    Some("segment version is at u64::MAX"@)
                } else {
                    match payload_index {
                        Some(schema) => indexes_fault(segments@, schema.schema@, 0),
                        None => None,
                    }
                },
            },
        },
    }
}

/// Whether this is what has to be written to assemble a shard of those segments.
pub open spec fn is_assembly(
    assembly: Assembly,
    segments: Seq<BuiltSegment>,
    shard_id: u32,
    payload_index: Option<&PayloadIndexSchema>,
    ring_scale: u32,
) -> bool {
    let max = highest(versions_of(segments));
    &&& assembly.report.shard_id == shard_id
    &&& assembly.report.segments == segments.len() + (if takes_points(segments) {
        0int
    } else {
        1
    })
    &&& assembly.report.max_segment_version == max
    &&& assembly.report.wal_base == max + 1
    &&& match assembly.appendable {
        Some(indexes) => !takes_points(segments) && creates(indexes@, payload_index),
        None => takes_points(segments),
    }
    &&& assembly.applied_seq@ == applied_seq_value(max)
    &&& assembly.payload_index@ == payload_index_value(payload_index)
    &&& assembly.replica_state@ == replica_state_value()
    &&& assembly.ring_scale == ring_scale
}

/// Decide what has to be written to assemble one shard directory in place.
///
/// The log's next append lands one above the highest segment version, and the last applied operation
/// is that version, so nothing is replayed and no write is skipped.
pub fn assemble_shard(
    config: &LoadedConfig,
    shard: &ShardContents,
    shard_id: u32,
    payload_index: Option<&PayloadIndexSchema>,
) -> (assembly: Result<Assembly, String>)
    requires
        match shard.segments {
            Some(segments) => segments@.len() < usize::MAX,
            None => true,
        },
    ensures
        match assembly {
            Ok(assembly) => {
                &&& assemble_fault(*shard, config.fingerprint@, payload_index) is None
                &&& is_assembly(
                    assembly,
                    shard.segments.unwrap()@,
                    shard_id,
                    payload_index,
                    config.config.hash_ring_shard_scale,
                )
            },
            Err(message) => assemble_fault(*shard, config.fingerprint@, payload_index) == Some(
                message@,
            ),
        },
{
    let segments = match &shard.segments {
        Some(segments) => segments,
        None => {
            return Err(
                text::cat2(
                    shard.path.as_str(),
                    " has no segments directory; run the build phase first",
                ),
            );
        },
    };
    match check_stamp(shard.path.as_str(), &shard.stamped, config.fingerprint.as_str()) {
        Ok(()) => {},
        Err(message) => {
            return Err(message);
        },
    }
    let versions = match segment_versions(segments) {
        Ok(versions) => versions,
        Err(message) => {
            return Err(message);
        },
    };
    if versions.len() == 0 {
        return Err(
            text::cat2(
                shard.segments_path.as_str(),
                " contains no segments; a shard with no segments cannot be loaded",
            ),
        );
    }
    let max: u64 = highest_version(&versions);
    if max == u64::MAX {
        return Err("segment version is at u64::MAX".to_owned());
    }
    match payload_index {
        Some(schema) => match verify_segment_indexes(segments, schema) {
            Ok(()) => {},
            Err(message) => {
                return Err(message);
            },
        },
        None => {},
    }
    let appendable = ensure_appendable_segment(segments, payload_index);
    let added: usize = match &appendable {
        Some(_) => 1,
        None => 0,
    };
    Ok(
        Assembly {
            report: AssembleReport {
                shard_id,
                segments: segments.len() + added,
                max_segment_version: max,
                wal_base: max + 1,
            },
            appendable,
            applied_seq: applied_seq_json(max),
            payload_index: payload_index_json(payload_index),
            replica_state: replica_state_json(),
            ring_scale: config.hash_ring_shard_scale(),
        },
    )
}

/// The size parameters of a log.
#[derive(Debug, Clone, Copy, PartialEq, Eq, Structural)]
pub struct WalOptions {
    pub segment_capacity: usize,
    pub segment_queue_len: usize,
    pub retain_closed: usize,
}

/// The parameters of the empty log: the capacity in bytes, and at least one closed segment kept.
pub fn wal_options(capacity_mb: usize, segments_ahead: usize, retain_closed: usize) -> (options:
    WalOptions)
    requires
        capacity_mb * 1048576 <= usize::MAX,
    ensures
        options.segment_capacity == capacity_mb * 1048576,
        options.segment_queue_len == segments_ahead,
        options.retain_closed == (if retain_closed == 0 {
            1
        } else {
            retain_closed
        }),
{
    WalOptions {
        segment_capacity: capacity_mb * 1048576,
        segment_queue_len: segments_ahead,
        retain_closed: if retain_closed == 0 {
            1
        } else {
            retain_closed
        },
    }
}

/// What a shard directory must hold to be restorable.
pub open spec fn required_entries() -> Seq<Seq<char>> {
    seq![
        "wal"@,
        "segments"@,
        "applied_seq.json"@,
        "payload_index.json"@,
        "replica_state.json"@,
        "shard_config.json"@,
    ]
}

fn required_names() -> (names: Vec<String>)
    ensures
        text::texts(names@) == required_entries(),
{
    let mut names: Vec<String> = Vec::new();
    names.push("wal".to_owned());
    names.push("segments".to_owned());
    names.push("applied_seq.json".to_owned());
    names.push("payload_index.json".to_owned());
    names.push("replica_state.json".to_owned());
    names.push("shard_config.json".to_owned());
    assert(text::texts(names@) =~= required_entries());
    names
}

/// Check that a shard directory holds everything it must; `present` are the entries it has.
pub fn verify_complete(shard: &str, present: &Vec<String>) -> (outcome: Result<(), String>)
    ensures
        ({
            let missing = names::left_out(required_entries(), text::texts(present@).to_set());
            match outcome {
                Ok(()) => missing.len() == 0,
                Err(message) => missing.len() > 0 && message@ == shard@
                    + " is not a complete shard: missing "@ + text::joined(missing, ", "@),
            }
        }),
{
    let required = required_names();
    let set = names::name_set(present);
    let missing = names::names_left_out(&required, &set);
    assert(text::texts(missing@).len() == missing@.len());
    if missing.len() > 0 {
        return Err(
            text::cat3(
                shard,
                " is not a complete shard: missing ",
                text::join(&missing, ", ").as_str(),
            ),
        );
    }
    Ok(())
}

/// What is wrong with the log of an assembled shard.
pub open spec fn wal_fault(versions: Seq<u64>, next_append: u64, applied: u64) -> Option<Seq<char>> {
    if next_append <= highest(versions) {
        Some(
            "assembled WAL would hand out op number "@ + text::decimal_text(next_append as nat)
                + ", but a segment already has version "@ + text::decimal_text(
                highest(versions) as nat,
            )
                + ". The first write after restore would be silently skipped by `handle_segment_version`. Re-run the assemble phase."@,
        )
    } else if applied > next_append {
        Some(
            "applied_seq "@ + text::decimal_text(applied as nat)
                + " exceeds the WAL's last index "@ + text::decimal_text(next_append as nat)
                + "; startup asserts the opposite"@,
        )
    } else {
        None
    }
}

/// Check that the log of an assembled shard hands out no operation number that a segment would skip,
/// and that nothing counts as applied beyond it.
pub fn verify_assembled(segments: &Vec<BuiltSegment>, next_append: u64, applied: u64) -> (outcome:
    Result<(), String>)
    ensures
        match outcome {
            Ok(()) => odd_name(segments@, 0) is None && wal_fault(
                versions_of(segments@),
                next_append,
                applied,
            ) is None,
            Err(message) => match odd_name(segments@, 0) {
                Some(name) => message@ == not_uuid_text(name),
                None => wal_fault(versions_of(segments@), next_append, applied) == Some(message@),
            },
        },
{
    let versions = match segment_versions(segments) {
        Ok(versions) => versions,
        Err(message) => {
            return Err(message);
        },
    };
    let max: u64 = highest_version(&versions);
    if next_append <= max {
        return Err(
            text::cat5(
                "assembled WAL would hand out op number ",
                text::decimal(next_append as u128).as_str(),
                ", but a segment already has version ",
                text::decimal(max as u128).as_str(),
                ". The first write after restore would be silently skipped by `handle_segment_version`. Re-run the assemble phase.",
            ),
        );
    }
    if applied > next_append {
        return Err(
            text::cat5(
                "applied_seq ",
                text::decimal(applied as u128).as_str(),
                " exceeds the WAL's last index ",
                text::decimal(next_append as u128).as_str(),
                "; startup asserts the opposite",
            ),
        );
    }
    Ok(())
}

/// An assembled shard verifies: no segment version reaches the log's next append, and the last
/// applied operation does not exceed it.
pub proof fn assembled_shards_verify(
    shard: ShardContents,
    fingerprint: Seq<char>,
    payload_index: Option<&PayloadIndexSchema>,
)
    requires
        assemble_fault(shard, fingerprint, payload_index) is None,
    ensures
        ({
            let segments = shard.segments.unwrap()@;
            let max = highest(versions_of(segments));
            let base = (max + 1) as u64;
            &&& odd_name(segments, 0) is None
            &&& wal_fault(versions_of(segments), base, max) is None
            &&& forall|i: int|
                0 <= i < versions_of(segments).len() ==> #[trigger] versions_of(segments)[i] < base
        }),
{
    lemma_highest(versions_of(shard.segments.unwrap()@));
}

/// A version is one of the list exactly where a segment has it.
proof fn lemma_versions(segments: Seq<BuiltSegment>)
    ensures
        forall|version: u64| #[trigger]
            versions_of(segments).contains(version) <==> (exists|i: int|
                0 <= i < segments.len() && (#[trigger] segments[i]).version == Some(version)),
    decreases segments.len(),
{
    if segments.len() > 0 {
        let rest = segments.drop_last();
        lemma_versions(rest);
        assert forall|version: u64| #[trigger] versions_of(segments).contains(version) <==> (
        exists|i: int|
            0 <= i < segments.len() && (#[trigger] segments[i]).version == Some(version)) by {
            let before = versions_of(rest);
            let all = versions_of(segments);
            if all.contains(version) {
                let k = choose|k: int| 0 <= k < all.len() && all[k] == version;
                if k < before.len() {
                    assert(before[k] == version);
                    assert(before.contains(version));
                    let i = choose|i: int|
                        0 <= i < rest.len() && (#[trigger] rest[i]).version == Some(version);
                    assert(segments[i].version == Some(version));
                } else {
                    assert(segments[segments.len() - 1].version == Some(version));
                }
            }
            if exists|i: int|
                0 <= i < segments.len() && (#[trigger] segments[i]).version == Some(version) {
                let i = choose|i: int|
                    0 <= i < segments.len() && (#[trigger] segments[i]).version == Some(version);
                if i < rest.len() {
                    assert(rest[i].version == Some(version));
                    assert(before.contains(version));
                    let k = choose|k: int| 0 <= k < before.len() && before[k] == version;
                    assert(all[k] == version);
                } else {
                    assert(all[before.len() as int] == version);
                }
            }
        }
    }
}

/// Assembling again starts the log where it started: the segment that assembly added, wherever it is
/// listed, is empty or stamped with the highest version that was there.
pub proof fn reassembly_keeps_the_wal_base(
    segments: Seq<BuiltSegment>,
    added: BuiltSegment,
    at: int,
)
    requires
        0 <= at <= segments.len(),
        versions_of(segments).len() > 0,
        added.version is None || added.version == Some(highest(versions_of(segments))),
    ensures
        versions_of(segments.insert(at, added)).len() > 0,
        highest(versions_of(segments.insert(at, added))) == highest(versions_of(segments)),
{
    let more = segments.insert(at, added);
    let max = highest(versions_of(segments));
    lemma_versions(segments);
    lemma_versions(more);
    lemma_highest(versions_of(segments));
    lemma_highest(versions_of(more));
    assert(versions_of(segments).contains(max));
    let i = choose|i: int| 0 <= i < segments.len() && (#[trigger] segments[i]).version == Some(max);
    let j = if i < at {
        i
    } else {
        i + 1
    };
    assert(more[j].version == Some(max));
    assert(versions_of(more).contains(max));
    let top = highest(versions_of(more));
    assert(versions_of(more).contains(top));
    let k = choose|k: int| 0 <= k < more.len() && (#[trigger] more[k]).version == Some(top);
    if k != at {
        let l = if k < at {
            k
        } else {
            k - 1
        };
        assert(segments[l].version == Some(top));
        assert(versions_of(segments).contains(top));
    }
}

/// A segment with a higher version than a log's next append is found out.
pub proof fn a_stale_wal_is_caught(versions: Seq<u64>, i: int, next_append: u64, applied: u64)
    requires
        0 <= i < versions.len(),
        versions[i] >= next_append,
    ensures
        wal_fault(versions, next_append, applied) is Some,
{
    lemma_highest(versions);
}

/// The replica state of an assembled shard: a local replica whose peers hold one entry, under the
/// decimal text of its own peer id, and that entry is active.
pub proof fn an_assembled_shard_is_active_on_its_own_peer(
    assembly: Assembly,
    segments: Seq<BuiltSegment>,
    shard_id: u32,
    payload_index: Option<&PayloadIndexSchema>,
    ring_scale: u32,
)
    requires
        is_assembly(assembly, segments, shard_id, payload_index, ring_scale),
    ensures
        json::get_member(assembly.replica_state@, "is_local"@) == Some(JsonValue::Bool(true)),
        json::get_member(assembly.replica_state@, "this_peer_id"@) matches Some(
            JsonValue::Unsigned(peer),
        ) && json::get_member(assembly.replica_state@, "peers"@) == Some(
            JsonValue::Object(
                seq![(text::decimal_text(peer as nat), JsonValue::Text("Active"@))],
            ),
        ) && json::get_member(
            json::get_member(assembly.replica_state@, "peers"@)->0,
            text::decimal_text(peer as nat),
        ) == Some(JsonValue::Text("Active"@)),
{
    reveal_strlit("is_local");
    reveal_strlit("this_peer_id");
    reveal_strlit("peers");
    reveal_strlit("0");
    let state = assembly.replica_state@;
    let members = state->Object_0;
    reveal_with_fuel(json::member, 4);
    assert(members.skip(1)[0] == members[1]);
    assert(members.skip(1).skip(1)[0] == members[2]);
    assert("this_peer_id"@.len() != "is_local"@.len());
    assert("this_peer_id"@.len() != "peers"@.len());
    assert("is_local"@.len() != "peers"@.len());
    assert(text::decimal_text(0) =~= "0"@);
    let peers = json::get_member(state, "peers"@)->0;
    assert(peers->Object_0 =~= seq![(text::decimal_text(0), JsonValue::Text("Active"@))]);
}

/// The log of an assembled shard begins behind every segment: the last applied operation is the
/// highest version that a segment has, some segment has it, and the next append is the number behind
/// it, above the version of every segment.
pub proof fn an_assembled_log_begins_behind_every_segment(
    assembly: Assembly,
    shard: ShardContents,
    fingerprint: Seq<char>,
    shard_id: u32,
    payload_index: Option<&PayloadIndexSchema>,
    ring_scale: u32,
)
    requires
        assemble_fault(shard, fingerprint, payload_index) is None,
        is_assembly(assembly, shard.segments.unwrap()@, shard_id, payload_index, ring_scale),
    ensures
        ({
            let segments = shard.segments.unwrap()@;
            &&& assembly.applied_seq@ == JsonValue::Object(
                seq![("op_num"@, JsonValue::Unsigned(assembly.report.max_segment_version))],
            )
            &&& assembly.report.wal_base == assembly.report.max_segment_version + 1
            &&& forall|i: int|
                0 <= i < segments.len() && (#[trigger] segments[i]).version is Some
                    ==> segments[i].version->0 <= assembly.report.max_segment_version
            &&& exists|i: int|
                0 <= i < segments.len() && (#[trigger] segments[i]).version == Some(
                    assembly.report.max_segment_version,
                )
        }),
{
    let segments = shard.segments.unwrap()@;
    lemma_versions(segments);
    lemma_highest(versions_of(segments));
    assert forall|i: int|
        0 <= i < segments.len() && (#[trigger] segments[i]).version is Some implies segments[i]
        .version->0 <= assembly.report.max_segment_version by {
        let version = segments[i].version->0;
        assert(segments[i].version == Some(version));
        assert(versions_of(segments).contains(version));
        let k = versions_of(segments).index_of(version);
        assert(versions_of(segments)[k] == version);
    }
    assert(versions_of(segments).contains(assembly.report.max_segment_version));
}

/// An assembled shard takes new points: one of its segments did already, or one is added, which then
/// counts among its segments and is given every declared field index.
pub proof fn an_assembled_shard_takes_points(
    assembly: Assembly,
    segments: Seq<BuiltSegment>,
    shard_id: u32,
    payload_index: Option<&PayloadIndexSchema>,
    ring_scale: u32,
)
    requires
        is_assembly(assembly, segments, shard_id, payload_index, ring_scale),
    ensures
        assembly.appendable is None <==> exists|i: int|
            0 <= i < segments.len() && (#[trigger] segments[i]).appendable,
        assembly.appendable is None ==> assembly.report.segments == segments.len(),
        assembly.appendable is Some ==> assembly.report.segments == segments.len() + 1,
        match (assembly.appendable, payload_index) {
            (Some(added), Some(declared)) => {
                &&& added@.len() == declared.schema@.len()
                &&& forall|i: int|
                    0 <= i < added@.len() ==> (#[trigger] added@[i]).field_name@
                        == declared.schema@[i].0 && added@[i].field_schema@
                        == declared.schema@[i].1.definition@
            },
            (Some(added), None) => added@.len() == 0,
            (None, _) => true,
        },
{
}

/// The payload index file of an assembled shard lists exactly the declared fields, each with its
/// definition.
pub proof fn an_assembled_shard_lists_its_field_indexes(
    assembly: Assembly,
    segments: Seq<BuiltSegment>,
    shard_id: u32,
    payload_index: Option<&PayloadIndexSchema>,
    ring_scale: u32,
)
    requires
        is_assembly(assembly, segments, shard_id, payload_index, ring_scale),
    ensures
        json::get_member(assembly.payload_index@, "schema"@) matches Some(
            JsonValue::Object(fields),
        ) && match payload_index {
            Some(declared) => {
                &&& fields.len() == declared.schema@.len()
                &&& forall|i: int|
                    0 <= i < fields.len() ==> (#[trigger] fields[i]).0 == declared.schema@[i].0
                        && fields[i].1 == declared.schema@[i].1.definition@
            },
            None => fields.len() == 0,
        },
{
    reveal_with_fuel(json::member, 2);
}

/// A shard is assembled exactly where its segments directory is there, it is stamped with the
/// document's fingerprint, every segment is named by a UUID, some segment has a version and none the
/// highest number there is, and each segment carries the declared field indexes as declared and no
/// others.
pub proof fn only_shards_built_under_the_document_are_assembled(
    shard: ShardContents,
    fingerprint: Seq<char>,
    payload_index: Option<&PayloadIndexSchema>,
)
    ensures
        assemble_fault(shard, fingerprint, payload_index) is None <==> {
            &&& shard.segments is Some
            &&& shard.stamped is Some
            &&& shard.stamped->0.full@ == fingerprint
            &&& forall|i: int|
                0 <= i < (shard.segments->0)@.len() ==> ids::uuid_in(
                    (#[trigger] (shard.segments->0)@[i]).name@,
                ) is Some
            &&& exists|i: int|
                0 <= i < (shard.segments->0)@.len() && (#[trigger] (
                shard.segments->0)@[i]).version is Some
            &&& forall|i: int|
                0 <= i < (shard.segments->0)@.len() ==> (#[trigger] (
                shard.segments->0)@[i]).version != Some(u64::MAX)
            &&& payload_index matches Some(declared) ==> forall|i: int|
                0 <= i < (shard.segments->0)@.len() ==> has_the_indexes(
                    #[trigger] (shard.segments->0)@[i],
                    declared.schema@,
                )
        },
{
    if shard.segments is Some {
        let segments = (shard.segments->0)@;
        lemma_versions(segments);
        lemma_highest(versions_of(segments));
        lemma_odd_name(segments, 0);
        let max = highest(versions_of(segments));
        if versions_of(segments).len() > 0 {
            assert(versions_of(segments).contains(max));
            let i = choose|i: int|
                0 <= i < segments.len() && (#[trigger] segments[i]).version == Some(max);
            assert(segments[i].version is Some);
        }
        if exists|i: int| 0 <= i < segments.len() && (#[trigger] segments[i]).version is Some {
            let i = choose|i: int|
                0 <= i < segments.len() && (#[trigger] segments[i]).version is Some;
            let version = segments[i].version->0;
            assert(segments[i].version == Some(version));
            assert(versions_of(segments).contains(version));
        }
        if max < u64::MAX {
            assert forall|i: int| 0 <= i < segments.len() implies (
            #[trigger] segments[i]).version != Some(u64::MAX) by {
                if segments[i].version == Some(u64::MAX) {
                    assert(versions_of(segments).contains(u64::MAX));
                    let k = versions_of(segments).index_of(u64::MAX);
                    assert(versions_of(segments)[k] <= max);
                }
            }
        }
        match payload_index {
            Some(declared) => lemma_indexes_fault(segments, declared.schema@, 0),
            None => {},
        }
    }
}

/// Whether a segment carries the declared field indexes, each taken for the declared one, and no
/// other.
pub open spec fn has_the_indexes(
    segment: BuiltSegment,
    declared: Seq<(Seq<char>, FieldSchema)>,
) -> bool {
    &&& forall|k: int|
        0 <= k < declared.len() ==> (names::value_of(
            segment.indexed_fields@,
            (#[trigger] declared[k]).0,
        ) matches Some(found) && found.same)
    &&& forall|k: int|
        0 <= k < segment.indexed_fields@.len() ==> names::has_key(
            declared,
            (#[trigger] segment.indexed_fields@[k]).0,
        )
}

proof fn lemma_odd_name(segments: Seq<BuiltSegment>, from: int)
    requires
        0 <= from,
    ensures
        odd_name(segments, from) is None <==> forall|i: int|
            from <= i < segments.len() ==> ids::uuid_in((#[trigger] segments[i]).name@) is Some,
    decreases segments.len() - from,
{
    if from < segments.len() {
        lemma_odd_name(segments, from + 1);
        if odd_name(segments, from) is None {
            assert forall|i: int| from <= i < segments.len() implies ids::uuid_in(
                (#[trigger] segments[i]).name@,
            ) is Some by {}
        } else {
            assert(segments[from].name@ == segments[from].name@);
        }
    }
}

proof fn lemma_declared_fault(
    segment: Seq<char>,
    found: Seq<(Seq<char>, FoundIndex)>,
    declared: Seq<(Seq<char>, FieldSchema)>,
    from: int,
)
    requires
        0 <= from,
    ensures
        declared_fault(segment, found, declared, from) is None <==> forall|k: int|
            from <= k < declared.len() ==> (names::value_of(
                found,
                (#[trigger] declared[k]).0,
            ) matches Some(index) && index.same),
    decreases declared.len() - from,
{
    if from < declared.len() {
        lemma_declared_fault(segment, found, declared, from + 1);
        if declared_fault(segment, found, declared, from) is None {
            assert forall|k: int| from <= k < declared.len() implies (names::value_of(
                found,
                (#[trigger] declared[k]).0,
            ) matches Some(index) && index.same) by {}
        } else {
            assert(declared[from].0 == declared[from].0);
        }
    }
}

proof fn lemma_index_fault(segment: BuiltSegment, declared: Seq<(Seq<char>, FieldSchema)>)
    ensures
        index_fault(segment.name@, segment.indexed_fields@, declared) is None <==> has_the_indexes(
            segment,
            declared,
        ),
{
    let found = segment.indexed_fields@;
    lemma_declared_fault(segment.name@, found, declared, 0);
    let extra = names::left_out(names::keys(found), names::key_set(declared));
    names::lemma_left_out(names::keys(found), names::key_set(declared));
    if extra.len() > 0 {
        assert(extra.contains(extra[0]));
        let k = names::keys(found).index_of(extra[0]);
        assert(found[k].0 == extra[0]);
    } else {
        assert forall|k: int| 0 <= k < found.len() implies names::has_key(
            declared,
            (#[trigger] found[k]).0,
        ) by {
            assert(names::keys(found)[k] == found[k].0);
            assert(names::keys(found).contains(found[k].0));
            assert(!extra.contains(found[k].0));
        }
    }
}

proof fn lemma_indexes_fault(
    segments: Seq<BuiltSegment>,
    declared: Seq<(Seq<char>, FieldSchema)>,
    from: int,
)
    requires
        0 <= from,
    ensures
        indexes_fault(segments, declared, from) is None <==> forall|i: int|
            from <= i < segments.len() ==> has_the_indexes(#[trigger] segments[i], declared),
    decreases segments.len() - from,
{
    if from < segments.len() {
        lemma_indexes_fault(segments, declared, from + 1);
        lemma_index_fault(segments[from], declared);
        if indexes_fault(segments, declared, from) is None {
            assert forall|i: int| from <= i < segments.len() implies has_the_indexes(
                #[trigger] segments[i],
                declared,
            ) by {}
        } else {
            assert(has_the_indexes(segments[from], declared) == has_the_indexes(
                segments[from],
                declared,
            ));
        }
    }
}

/// A log passes exactly where its next append is above the version of every segment and nothing
/// counts as applied beyond it. (A log at zero never passes.)
pub proof fn only_logs_behind_every_segment_pass(
    segments: Seq<BuiltSegment>,
    next_append: u64,
    applied: u64,
)
    ensures
        wal_fault(versions_of(segments), next_append, applied) is None <==> {
            &&& next_append > 0
            &&& applied <= next_append
            &&& forall|i: int|
                0 <= i < segments.len() && (#[trigger] segments[i]).version is Some
                    ==> segments[i].version->0 < next_append
        },
{
    let versions = versions_of(segments);
    lemma_versions(segments);
    lemma_highest(versions);
    if next_append > highest(versions) {
        assert forall|i: int|
            0 <= i < segments.len() && (#[trigger] segments[i]).version is Some implies segments[i]
            .version->0 < next_append by {
            let version = segments[i].version->0;
            assert(segments[i].version == Some(version));
            assert(versions.contains(version));
            let k = versions.index_of(version);
            assert(versions[k] <= highest(versions));
        }
    } else if versions.len() > 0 {
        assert(versions.contains(highest(versions)));
        let i = choose|i: int|
            0 <= i < segments.len() && (#[trigger] segments[i]).version == Some(highest(versions));
        assert(segments[i].version is Some);
    }
}

/// A shard directory is complete exactly where it holds the log, the segments and the four files
/// that a server reads when it loads the shard.
pub proof fn a_complete_shard_holds_what_a_server_loads(present: Set<Seq<char>>)
    ensures
        names::left_out(required_entries(), present).len() == 0 <==> {
            &&& present.contains("wal"@)
            &&& present.contains("segments"@)
            &&& present.contains("applied_seq.json"@)
            &&& present.contains("payload_index.json"@)
            &&& present.contains("replica_state.json"@)
            &&& present.contains("shard_config.json"@)
        },
{
    let required = required_entries();
    let missing = names::left_out(required, present);
    names::lemma_left_out(required, present);
    if missing.len() > 0 {
        assert(missing.contains(missing[0]));
        let i = required.index_of(missing[0]);
        assert(0 <= i < 6);
    } else {
        assert forall|i: int| 0 <= i < 6 implies present.contains(#[trigger] required[i]) by {
            assert(required.contains(required[i]));
            assert(!missing.contains(required[i]));
        }
        assert(present.contains(required[0]));
        assert(present.contains(required[1]));
        assert(present.contains(required[2]));
        assert(present.contains(required[3]));
        assert(present.contains(required[4]));
        assert(present.contains(required[5]));
    }
}

/// The segment directories are the directories that are not hidden and not scratch space, each as
/// often as it is listed.
pub proof fn every_visible_directory_is_a_segment(entries: Seq<DirEntry>, name: Seq<char>)
    ensures
        segment_names(entries).contains(name) <==> {
            &&& exists|i: int|
                0 <= i < entries.len() && (#[trigger] entries[i]).is_dir && entries[i].name@ == name
            &&& name.len() == 0 || name[0] != '.'
            &&& name != "temp_segments"@
        },
    decreases entries.len(),
{
    reveal_strlit(".");
    let all = segment_names(entries);
    if entries.len() > 0 {
        let rest = entries.drop_last();
        let front = segment_names(rest);
        let last = entries.last();
        every_visible_directory_is_a_segment(rest, name);
        assert(last == entries[entries.len() - 1]);
        if exists|i: int|
            0 <= i < rest.len() && (#[trigger] rest[i]).is_dir && rest[i].name@ == name {
            let i = choose|i: int|
                0 <= i < rest.len() && (#[trigger] rest[i]).is_dir && rest[i].name@ == name;
            assert(entries[i].is_dir && entries[i].name@ == name);
        }
        if exists|i: int|
            0 <= i < entries.len() && (#[trigger] entries[i]).is_dir && entries[i].name@ == name {
            let i = choose|i: int|
                0 <= i < entries.len() && (#[trigger] entries[i]).is_dir && entries[i].name@
                    == name;
            if i < rest.len() {
                assert(rest[i].is_dir && rest[i].name@ == name);
            }
        }
        if front.contains(name) {
            let k = front.index_of(name);
            assert(all[k] == name);
        }
        let hidden = last.name@.len() > 0 && last.name@[0] == '.';
        assert(text::begins(last.name@, "."@) == hidden) by {
            if last.name@.len() > 0 {
                assert(last.name@.take(1)[0] == last.name@[0]);
                if hidden {
                    assert(last.name@.take(1) =~= "."@);
                }
            }
        }
        if is_segment_dir(last) {
            assert(all[all.len() - 1] == last.name@);
            if all.contains(name) && name != last.name@ {
                let k = all.index_of(name);
                assert(front[k] == name);
            }
        }
    }
}

/// Every directory named for a shard is found, under the id in its name, and nothing else is.
pub proof fn every_shard_directory_is_found(entries: Seq<DirEntry>, id: u32, name: Seq<char>)
    ensures
        shards_in(entries).contains((id, name)) <==> exists|i: int|
            0 <= i < entries.len() && (#[trigger] entries[i]).is_dir && entries[i].name@ == name
                && text::begins(name, "shard_"@) && text::number_in(
                name.skip(6),
                u32::MAX as nat,
            ) == Some(id as nat),
    decreases entries.len(),
{
    reveal_strlit("shard_");
    if entries.len() > 0 {
        let rest = entries.drop_last();
        let last = entries.last();
        every_shard_directory_is_found(rest, id, name);
        assert(last == entries[entries.len() - 1]);
        match shard_id_in(last) {
            Some(found) => lemma_insert_holds(shards_in(rest), (found, last.name@), (id, name)),
            None => {},
        }
        if exists|i: int|
            0 <= i < rest.len() && (#[trigger] rest[i]).is_dir && rest[i].name@ == name
                && text::begins(name, "shard_"@) && text::number_in(
                name.skip(6),
                u32::MAX as nat,
            ) == Some(id as nat) {
            let i = choose|i: int|
                0 <= i < rest.len() && (#[trigger] rest[i]).is_dir && rest[i].name@ == name
                    && text::begins(name, "shard_"@) && text::number_in(
                    name.skip(6),
                    u32::MAX as nat,
                ) == Some(id as nat);
            assert(entries[i].is_dir && entries[i].name@ == name);
        }
        if exists|i: int|
            0 <= i < entries.len() && (#[trigger] entries[i]).is_dir && entries[i].name@ == name
                && text::begins(name, "shard_"@) && text::number_in(
                name.skip(6),
                u32::MAX as nat,
            ) == Some(id as nat) {
            let i = choose|i: int|
                0 <= i < entries.len() && (#[trigger] entries[i]).is_dir && entries[i].name@ == name
                    && text::begins(name, "shard_"@) && text::number_in(
                    name.skip(6),
                    u32::MAX as nat,
                ) == Some(id as nat);
            if i < rest.len() {
                assert(rest[i].is_dir && rest[i].name@ == name);
            }
        }
    }
}

/// A list with an item inserted holds the item and what it held.
proof fn lemma_insert_holds(
    list: Seq<(u32, Seq<char>)>,
    item: (u32, Seq<char>),
    held: (u32, Seq<char>),
)
    ensures
        insert_by_id(list, item).contains(held) <==> held == item || list.contains(held),
    decreases list.len(),
{
    let after = insert_by_id(list, item);
    if list.len() == 0 || list.last().0 <= item.0 {
        assert(after[list.len() as int] == item);
        if list.contains(held) {
            let k = list.index_of(held);
            assert(after[k] == held);
        }
    } else {
        let rest = list.drop_last();
        let front = insert_by_id(rest, item);
        lemma_insert_holds(rest, item, held);
        assert(after[front.len() as int] == list.last());
        assert(list[list.len() - 1] == list.last());
        if front.contains(held) {
            let k = front.index_of(held);
            assert(after[k] == held);
        }
        if after.contains(held) && held != list.last() {
            let k = after.index_of(held);
            assert(front[k] == held);
        }
        if rest.contains(held) {
            let k = rest.index_of(held);
            assert(list[k] == held);
        }
        if list.contains(held) && held != list.last() {
            let k = list.index_of(held);
            assert(rest[k] == held);
        }
    }
}

/// Every segment that takes new points is counted, and no other.
pub proof fn every_appendable_segment_counts(segments: Seq<BuiltSegment>, segment: BuiltSegment)
    ensures
        appendable_count(Seq::empty()) == 0,
        appendable_count(segments.push(segment)) == appendable_count(segments) + (
        if segment.appendable {
            1int
        } else {
            0
        }),
{
    assert(segments.push(segment).drop_last() =~= segments);
}

} // verus!
