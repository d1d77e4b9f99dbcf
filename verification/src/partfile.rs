//! On-disk format for scatter output, and the projection a build reads it through.
//!
//! A part file holds the records of one input file that belong to one shard: a magic number, a
//! JSON header, then length-prefixed records. The header carries a fingerprint of the routing, on
//! which part and build must agree, and a manifest of everything else the part carries, of which a
//! build may ask for a subset. A projection can drop, never invent.
use vstd::prelude::*;
use vstd::string::*;
use crate::dense_codec::DenseEncoding;
use crate::names;
use crate::names::NameMap;
use crate::text;

verus! {

/// How one dense vector in a part was written.
#[derive(Debug)]
pub struct DenseSpec {
    /// Element width its bytes are packed at, which is what records are decoded with.
    pub encoding: DenseEncoding,
    /// Element count per vector.
    pub dim: usize,
    /// Source column, when the input format has named columns.
    pub source: Option<String>,
}

/// How one sparse vector in a part was written.
#[derive(Debug)]
pub struct SparseSpec {
    /// Source column, when the input format has named columns.
    pub source: Option<String>,
}

/// Exactly what a part carries, recorded so it can be interpreted without the config.
pub struct PartManifest {
    /// Dense vectors present, by vector name.
    pub dense: NameMap<DenseSpec>,
    /// Sparse vectors present, by vector name.
    pub sparse: NameMap<SparseSpec>,
    /// Payload keys captured. `None` when the input format does not declare a column set.
    pub payload: Option<Vec<String>>,
}

/// Metadata at the head of every part file.
pub struct PartHeader {
    /// Fingerprint of the routing this part was scattered under.
    pub part_fingerprint: String,
    /// Stable id of the input file these records came from.
    pub file_id: String,
    /// Input path as given, for debugging.
    pub source_path: String,
    /// Shard these records route to.
    pub shard_id: u32,
    /// What this part contains, and how.
    pub manifest: PartManifest,
}

/// What a build wants out of a part, derived from the collection config and the input mapping.
pub struct WantedFields {
    /// Dense vector name to the dimensionality the collection config declares.
    pub dense: NameMap<usize>,
    /// Sparse vector names the collection config declares.
    pub sparse: NameMap<()>,
    /// Payload keys to keep. `None` keeps whatever the part carries.
    pub payload: Option<NameMap<()>>,
    /// Expected source column per dense vector name, when the mapping names one.
    ///
    /// Separate from the sparse sources: the two kinds of vector have namespaces of their own,
    /// and a collection may use one name for both.
    pub dense_sources: NameMap<String>,
    /// Expected source column per sparse vector name.
    pub sparse_sources: NameMap<String>,
}

/// A resolved plan for turning one part's records into points.
pub struct PartProjection {
    /// Dense vectors to keep, with the encoding to decode each one at.
    pub dense: NameMap<DenseEncoding>,
    /// Sparse vectors to keep.
    pub sparse: NameMap<()>,
    /// Payload keys to keep, or `None` to keep all.
    pub payload: Option<NameMap<()>>,
    /// Dense vectors that the part carries and the build does not want.
    pub dropped_dense: Vec<String>,
    /// Sparse vectors that the part carries and the build does not want.
    pub dropped_sparse: Vec<String>,
    /// Payload keys that the part carries and the build does not want, in order.
    pub dropped_payload: Vec<String>,
}

/// Why a part cannot supply what a build wants.
pub enum ProjectionFault {
    /// The part has no dense vector of that name.
    MissingDense { name: String, carried: Vec<String> },
    /// The part's vectors have another number of elements.
    Dimension { name: String, dim: usize, want_dim: usize },
    /// The part's vectors were read from another column.
    Source { name: String, scattered: String, wanted: String },
    /// The part has no sparse vector of that name.
    MissingSparse { name: String, carried: Vec<String> },
    /// The part's payload lacks columns.
    MissingPayload { missing: Vec<String>, captured: NameMap<()> },
}

/// What a projection fault says.
pub enum FaultView {
    MissingDense { name: Seq<char>, carried: Seq<Seq<char>> },
    Dimension { name: Seq<char>, dim: usize, want_dim: usize },
    Source { name: Seq<char>, scattered: Seq<char>, wanted: Seq<char> },
    MissingSparse { name: Seq<char>, carried: Seq<Seq<char>> },
    MissingPayload { missing: Seq<Seq<char>>, captured: Set<Seq<char>> },
}

impl ProjectionFault {
    pub open spec fn view(self) -> FaultView {
        match self {
            ProjectionFault::MissingDense { name, carried } => FaultView::MissingDense {
                name: name@,
                carried: text::texts(carried@),
            },
            ProjectionFault::Dimension { name, dim, want_dim } => FaultView::Dimension {
                name: name@,
                dim,
                want_dim,
            },
            ProjectionFault::Source { name, scattered, wanted } => FaultView::Source {
                name: name@,
                scattered: scattered@,
                wanted: wanted@,
            },
            ProjectionFault::MissingSparse { name, carried } => FaultView::MissingSparse {
                name: name@,
                carried: text::texts(carried@),
            },
            ProjectionFault::MissingPayload { missing, captured } => FaultView::MissingPayload {
                missing: text::texts(missing@),
                captured: names::key_set(captured@),
            },
        }
    }
    pub open spec fn text(self, path: Seq<char>) -> Seq<char> {
        match self {
            ProjectionFault::MissingDense { name, carried } => path
                + " does not carry a dense vector named '"@
                + name@
                + "'.\n\nIt carries: "@
                + text::debug_texts(text::texts(carried@))
                + ". A build can drop vectors the scatter captured, but it cannot \
                 invent one — re-scatter with '"@
                + name@
                + "' in the mapping's `dense_vectors`."@,
            ProjectionFault::Dimension { name, dim, want_dim } => path
                + ": dense vector '"@
                + name@
                + "' was scattered with "@
                + text::decimal_text(dim as nat)
                + " elements, but the config declares size "@
                + text::decimal_text(want_dim as nat)
                + ".\n\nDimensionality is a property of the source data, not something \
                 a build can change. Re-scatter, or set the config back to "@
                + text::decimal_text(dim as nat)
                + "."@,
            ProjectionFault::Source { name, scattered, wanted } => path
                + ": vector '"@
                + name@
                + "' was scattered from column '"@
                + scattered@
                + "', but the mapping now names '"@
                + wanted@
                + "'.\n\nReusing the scatter would store the old column's values under \
                 the new mapping. Re-scatter, or point '"@
                + name@
                + "' back at '"@
                + scattered@
                + "'."@,
            ProjectionFault::MissingSparse { name, carried } => path
                + " does not carry a sparse vector named '"@
                + name@
                + "'.\n\nIt carries: "@
                + text::debug_texts(text::texts(carried@))
                + ". Re-scatter with '"@
                + name@
                + "' in the mapping's `sparse_vectors`."@,
            ProjectionFault::MissingPayload { missing, captured } => path
                + " does not carry payload column(s) "@
                + text::debug_texts(text::texts(missing@))
                + ".\n\nIt carries: "@
                + text::debug_set_texts(names::keys(captured@))
                + ". `payload_columns` at build time selects from what the scatter \
                 captured; it cannot add columns that were never read."@,
        }
    }

    /// The message for the operator, about the part at `path`.
    pub fn message(&self, path: &str) -> (message: String)
        ensures
            message@ == self.text(path@),
    {
        match self {
            ProjectionFault::MissingDense { name, carried } => {
                let mut message = path.to_owned();
                message.append(" does not carry a dense vector named '");
                message.append(name.as_str());
                message.append("'.\n\nIt carries: ");
                message.append(text::debug_list(carried).as_str());
                message.append(
                    ". A build can drop vectors the scatter captured, but it cannot \
                     invent one — re-scatter with '",
                );
                message.append(name.as_str());
                message.append("' in the mapping's `dense_vectors`.");
                message
            },
            ProjectionFault::Dimension { name, dim, want_dim } => {
                let mut message = path.to_owned();
                message.append(": dense vector '");
                message.append(name.as_str());
                message.append("' was scattered with ");
                message.append(text::decimal(*dim as u128).as_str());
                message.append(" elements, but the config declares size ");
                message.append(text::decimal(*want_dim as u128).as_str());
                message.append(
                    ".\n\nDimensionality is a property of the source data, not \
                     something a build can change. Re-scatter, or set the config back \
                     to ",
                );
                message.append(text::decimal(*dim as u128).as_str());
                message.append(".");
                message
            },
            ProjectionFault::Source { name, scattered, wanted } => {
                let mut message = path.to_owned();
                message.append(": vector '");
                message.append(name.as_str());
                message.append("' was scattered from column '");
                message.append(scattered.as_str());
                message.append("', but the mapping now names '");
                message.append(wanted.as_str());
                message.append(
                    "'.\n\nReusing the scatter would store the old column's values \
                     under the new mapping. Re-scatter, or point '",
                );
                message.append(name.as_str());
                message.append("' back at '");
                message.append(scattered.as_str());
                message.append("'.");
                message
            },
            ProjectionFault::MissingSparse { name, carried } => {
                let mut message = path.to_owned();
                message.append(" does not carry a sparse vector named '");
                message.append(name.as_str());
                message.append("'.\n\nIt carries: ");
                message.append(text::debug_list(carried).as_str());
                message.append(". Re-scatter with '");
                message.append(name.as_str());
                message.append("' in the mapping's `sparse_vectors`.");
                message
            },
            ProjectionFault::MissingPayload { missing, captured } => {
                let mut message = path.to_owned();
                message.append(" does not carry payload column(s) ");
                message.append(text::debug_list(missing).as_str());
                message.append(".\n\nIt carries: ");
                message.append(text::debug_set(&captured.names()).as_str());
                message.append(
                    ". `payload_columns` at build time selects from what the scatter \
                     captured; it cannot add columns that were never read.",
                );
                message
            },
        }
    }
}

/// The fault of a vector whose source column changed since the scatter. Only checkable where both
/// sides name a column.
pub open spec fn source_fault(
    name: Seq<char>,
    scattered: Option<String>,
    wanted: Option<String>,
) -> Option<FaultView> {
    match (scattered, wanted) {
        (Some(s), Some(w)) => if s@ == w@ {
            None
        } else {
            Some(FaultView::Source { name, scattered: s@, wanted: w@ })
        },
        _ => None,
    }
}

/// The fault of one wanted dense vector.
pub open spec fn dense_fault(
    manifest: PartManifest,
    wanted: WantedFields,
    name: Seq<char>,
    want_dim: usize,
) -> Option<FaultView> {
    match names::value_of(manifest.dense@, name) {
        None => Some(FaultView::MissingDense { name, carried: names::keys(manifest.dense@) }),
        Some(spec) => if spec.dim != want_dim {
            Some(FaultView::Dimension { name, dim: spec.dim, want_dim })
        } else {
            source_fault(name, spec.source, names::value_of(wanted.dense_sources@, name))
        },
    }
}

/// The fault of one wanted sparse vector.
pub open spec fn sparse_fault(
    manifest: PartManifest,
    wanted: WantedFields,
    name: Seq<char>,
) -> Option<FaultView> {
    match names::value_of(manifest.sparse@, name) {
        None => Some(FaultView::MissingSparse { name, carried: names::keys(manifest.sparse@) }),
        Some(spec) => source_fault(
            name,
            spec.source,
            names::value_of(wanted.sparse_sources@, name),
        ),
    }
}

/// The fault of the wanted payload columns. Only checkable when the part enumerated its columns.
pub open spec fn payload_fault(manifest: PartManifest, wanted: WantedFields) -> Option<FaultView> {
    match (manifest.payload, wanted.payload) {
        (Some(captured), Some(requested)) => {
            let have = text::texts(captured@).to_set();
            let missing = names::left_out(names::keys(requested@), have);
            if missing.len() == 0 {
                None
            } else {
                Some(FaultView::MissingPayload { missing, captured: have })
            }
        },
        _ => None,
    }
}

/// The first fault among the wanted dense vectors from position `from`, in the order of names.
pub open spec fn first_dense_fault(
    manifest: PartManifest,
    wanted: WantedFields,
    from: int,
) -> Option<FaultView>
    decreases wanted.dense@.len() - from,
{
    if from < 0 || from >= wanted.dense@.len() {
        None
    } else {
        let (name, dim) = wanted.dense@[from];
        match dense_fault(manifest, wanted, name, dim) {
            Some(fault) => Some(fault),
            None => first_dense_fault(manifest, wanted, from + 1),
        }
    }
}

/// The first fault among the wanted sparse vectors from position `from`, in the order of names.
pub open spec fn first_sparse_fault(
    manifest: PartManifest,
    wanted: WantedFields,
    from: int,
) -> Option<FaultView>
    decreases wanted.sparse@.len() - from,
{
    if from < 0 || from >= wanted.sparse@.len() {
        None
    } else {
        match sparse_fault(manifest, wanted, wanted.sparse@[from].0) {
            Some(fault) => Some(fault),
            None => first_sparse_fault(manifest, wanted, from + 1),
        }
    }
}

/// Why `manifest` cannot supply `wanted`: dense vectors first, then sparse ones, then payload.
pub open spec fn projection_fault(manifest: PartManifest, wanted: WantedFields) -> Option<
    FaultView,
> {
    match first_dense_fault(manifest, wanted, 0) {
        Some(fault) => Some(fault),
        None => match first_sparse_fault(manifest, wanted, 0) {
            Some(fault) => Some(fault),
            None => payload_fault(manifest, wanted),
        },
    }
}

/// The encoding that a part's dense vector of that name is decoded with.
pub open spec fn carried_encoding(manifest: PartManifest, name: Seq<char>) -> Option<
    DenseEncoding,
> {
    match names::value_of(manifest.dense@, name) {
        Some(spec) => Some(spec.encoding),
        None => None,
    }
}

/// The payload keys that the part enumerated and the build does not ask for.
pub open spec fn surplus_payload(manifest: PartManifest, wanted: WantedFields) -> Seq<Seq<char>> {
    match (manifest.payload, wanted.payload) {
        (Some(captured), Some(requested)) => names::left_out(
            text::texts(captured@),
            names::key_set(requested@),
        ),
        _ => Seq::empty(),
    }
}

/// The keys to keep, or `None` to keep all.
pub open spec fn kept_keys(payload: Option<NameMap<()>>) -> Option<Seq<(Seq<char>, ())>> {
    match payload {
        Some(keep) => Some(keep@),
        None => None,
    }
}

impl PartProjection {
    /// Whether this projection gives a build what it wants of a part, and drops the rest.
    pub open spec fn projects(self, manifest: PartManifest, wanted: WantedFields) -> bool {
        &&& names::sorted_keys(self.dense@)
        &&& names::sorted_keys(self.sparse@)
        &&& forall|name: Seq<char>| #[trigger]
            names::value_of(self.dense@, name) == (if names::has_key(wanted.dense@, name) {
                carried_encoding(manifest, name)
            } else {
                None
            })
        &&& names::key_set(self.sparse@) =~= names::key_set(wanted.sparse@)
        &&& kept_keys(self.payload) == kept_keys(wanted.payload)
        &&& text::texts(self.dropped_dense@) == names::left_out(
            names::keys(manifest.dense@),
            names::key_set(wanted.dense@),
        )
        &&& text::texts(self.dropped_sparse@) == names::left_out(
            names::keys(manifest.sparse@),
            names::key_set(wanted.sparse@),
        )
        &&& text::sorted_texts(text::texts(self.dropped_payload@))
        &&& text::texts(self.dropped_payload@).to_multiset() == surplus_payload(
            manifest,
            wanted,
        ).to_multiset()
    }

    /// Check that `part` can supply `wanted`, and work out what to drop.
    ///
    /// Every fault names the specific field, because the alternative, a segment quietly missing a
    /// vector or a payload key, is invisible until something queries it.
    pub fn resolve(part: &PartHeader, wanted: &WantedFields) -> (projection: Result<
        Self,
        ProjectionFault,
    >)
        ensures
            match projection {
                Ok(p) => projection_fault(part.manifest, *wanted) is None && p.projects(
                    part.manifest,
                    *wanted,
                ),
                Err(fault) => projection_fault(part.manifest, *wanted) == Some(fault@),
            },
    {
        let manifest = &part.manifest;
        let dense = match resolve_dense(manifest, wanted) {
            Ok(dense) => dense,
            Err(fault) => return Err(fault),
        };
        let sparse = match resolve_sparse(manifest, wanted) {
            Ok(sparse) => sparse,
            Err(fault) => return Err(fault),
        };
        let mut dropped_payload: Vec<String> = Vec::new();
        if let Some(captured) = &manifest.payload {
            if let Some(requested) = &wanted.payload {
                let have = names::name_set(captured);
                let missing = names::names_left_out(&requested.names(), &have);
                if missing.len() > 0 {
                    return Err(ProjectionFault::MissingPayload { missing, captured: have });
                }
                dropped_payload = names::names_left_out(captured, requested);
            }
        }
        assert(text::texts(dropped_payload@) =~= surplus_payload(*manifest, *wanted));
        let dropped_dense = names::names_left_out(&manifest.dense.names(), &wanted.dense);
        let dropped_sparse = names::names_left_out(&manifest.sparse.names(), &wanted.sparse);
        let payload = match &wanted.payload {
            Some(keep) => Some(keep.copy()),
            None => None,
        };
        Ok(
            PartProjection {
                dense,
                sparse,
                payload,
                dropped_dense,
                dropped_sparse,
                dropped_payload: text::sort_names(dropped_payload),
            },
        )
    }

    /// True when nothing is being dropped, so a log line can be skipped.
    pub fn is_identity(&self) -> (identity: bool)
        ensures
            identity == (self.dropped_dense@.len() == 0 && self.dropped_sparse@.len() == 0
                && self.dropped_payload@.len() == 0),
    {
        self.dropped_dense.len() == 0 && self.dropped_sparse.len() == 0
            && self.dropped_payload.len() == 0
    }

    /// The parts of the summary: each list that is not empty, behind its title.
    pub open spec fn summary_parts(self) -> Seq<Seq<char>> {
        titled("dense "@, text::texts(self.dropped_dense@)) + titled(
            "sparse "@,
            text::texts(self.dropped_sparse@),
        ) + titled("payload "@, text::texts(self.dropped_payload@))
    }

    /// Whether a vector or a payload key of that name is being dropped.
    pub open spec fn drops(self, name: Seq<char>) -> bool {
        text::texts(self.dropped_dense@).contains(name) || text::texts(
            self.dropped_sparse@,
        ).contains(name) || text::texts(self.dropped_payload@).contains(name)
    }

    /// One-line summary of what is being dropped: nothing where nothing is, and otherwise every
    /// dropped name, quoted, on a single line.
    pub fn summary(&self) -> (line: String)
        ensures
            line@ == text::joined(self.summary_parts(), ", "@),
            text::one_line(line@),
            line@.len() == 0 <==> self.dropped_dense@.len() == 0 && self.dropped_sparse@.len() == 0
                && self.dropped_payload@.len() == 0,
            forall|name: Seq<char>| #[trigger]
                self.drops(name) ==> text::holds_text(line@, text::debug_text(name)),
    {
        let mut parts: Vec<String> = Vec::new();
        proof {
            reveal_strlit("dense ");
            reveal_strlit("sparse ");
            reveal_strlit("payload ");
            reveal_strlit(", ");
        }
        push_titled(&mut parts, "dense ", &self.dropped_dense);
        push_titled(&mut parts, "sparse ", &self.dropped_sparse);
        push_titled(&mut parts, "payload ", &self.dropped_payload);
        assert(text::texts(parts@) =~= self.summary_parts());
        proof {
            text::lemma_joined_one_line(self.summary_parts(), ", "@);
            self.lemma_summary_size();
            assert forall|name: Seq<char>| #[trigger] self.drops(name) implies text::holds_text(
                text::joined(self.summary_parts(), ", "@),
                text::debug_text(name),
            ) by {
                self.lemma_summary_names(name);
            }
        }
        text::join(&parts, ", ")
    }

    proof fn lemma_summary_size(self)
        ensures
            text::joined(self.summary_parts(), ", "@).len() == 0 <==> self.dropped_dense@.len() == 0
                && self.dropped_sparse@.len() == 0 && self.dropped_payload@.len() == 0,
    {
        reveal_strlit("dense ");
        reveal_strlit("sparse ");
        reveal_strlit("payload ");
        let parts = self.summary_parts();
        if parts.len() > 0 {
            assert(parts[0].len() > 0);
            text::lemma_joined_holds(parts, ", "@, 0);
        }
    }

    proof fn lemma_summary_names(self, name: Seq<char>)
        requires
            self.drops(name),
        ensures
            text::holds_text(text::joined(self.summary_parts(), ", "@), text::debug_text(name)),
    {
        let dense = titled("dense "@, text::texts(self.dropped_dense@));
        let sparse = titled("sparse "@, text::texts(self.dropped_sparse@));
        let parts = self.summary_parts();
        if text::texts(self.dropped_dense@).contains(name) {
            lemma_titled_names("dense "@, text::texts(self.dropped_dense@), name);
            lemma_summary_part(parts, 0, name);
        } else if text::texts(self.dropped_sparse@).contains(name) {
            lemma_titled_names("sparse "@, text::texts(self.dropped_sparse@), name);
            assert(parts[dense.len() as int] == sparse[0]);
            lemma_summary_part(parts, dense.len() as int, name);
        } else {
            let payload = titled("payload "@, text::texts(self.dropped_payload@));
            let at = dense.len() + sparse.len();
            lemma_titled_names("payload "@, text::texts(self.dropped_payload@), name);
            assert(parts[at as int] == payload[0]);
            lemma_summary_part(parts, at as int, name);
        }
    }
}

/// A list in its `Debug` form behind a title, or nothing where the list is empty.
pub open spec fn titled(title: Seq<char>, list: Seq<Seq<char>>) -> Seq<Seq<char>> {
    if list.len() == 0 {
        Seq::empty()
    } else {
        seq![title + text::debug_texts(list)]
    }
}

/// A titled list holds the `Debug` form of each name.
proof fn lemma_titled_names(title: Seq<char>, list: Seq<Seq<char>>, name: Seq<char>)
    requires
        list.contains(name),
    ensures
        titled(title, list).len() == 1,
        text::holds_text(titled(title, list)[0], text::debug_text(name)),
{
    let i = list.index_of(name);
    let none = Seq::<char>::empty();
    text::lemma_debug_texts_hold(list, i);
    text::lemma_holds_inside(title, text::debug_texts(list), none, text::debug_text(name));
    assert(title + text::debug_texts(list) + none =~= title + text::debug_texts(list));
}

/// What one part of a summary holds, the summary holds.
proof fn lemma_summary_part(parts: Seq<Seq<char>>, i: int, name: Seq<char>)
    requires
        0 <= i < parts.len(),
        text::holds_text(parts[i], text::debug_text(name)),
    ensures
        text::holds_text(text::joined(parts, ", "@), text::debug_text(name)),
{
    text::lemma_joined_holds(parts, ", "@, i);
    let (before, after) = choose|before: Seq<char>, after: Seq<char>|
        text::joined(parts, ", "@) == #[trigger] (before + parts[i] + after);
    text::lemma_holds_inside(before, parts[i], after, text::debug_text(name));
}

fn push_titled(parts: &mut Vec<String>, title: &str, list: &Vec<String>)
    requires
        text::one_line(title@),
        forall|i: int| 0 <= i < old(parts)@.len() ==> text::one_line((#[trigger] old(parts)@[i])@),
    ensures
        forall|i: int|
            0 <= i < final(parts)@.len() ==> text::one_line((#[trigger] final(parts)@[i])@),
        text::texts(final(parts)@) == text::texts(old(parts)@) + titled(
            title@,
            text::texts(list@),
        ),
{
    let ghost was = parts@;
    if list.len() > 0 {
        let mut part = title.to_owned();
        part.append(text::debug_list(list).as_str());
        parts.push(part);
    }
    assert(text::texts(parts@) =~= text::texts(was) + titled(title@, text::texts(list@)));
}

/// Refuse a vector whose source column changed since the scatter.
///
/// Without this, remapping a vector from one column to another and reusing the scatter would build
/// the old column's values under the new mapping: every count correct, every vector wrong.
fn check_source(name: &str, scattered: &Option<String>, wanted: Option<&String>) -> (checked: Result<
    (),
    ProjectionFault,
>)
    ensures
        match checked {
            Ok(()) => source_fault(
                name@,
                *scattered,
                match wanted {
                    Some(w) => Some(*w),
                    None => None,
                },
            ) is None,
            Err(fault) => source_fault(
                name@,
                *scattered,
                match wanted {
                    Some(w) => Some(*w),
                    None => None,
                },
            ) == Some(fault@),
        },
{
    if let Some(s) = scattered {
        if let Some(w) = wanted {
            if !text::same(s.as_str(), w.as_str()) {
                return Err(
                    ProjectionFault::Source {
                        name: name.to_owned(),
                        scattered: s.clone(),
                        wanted: w.clone(),
                    },
                );
            }
        }
    }
    Ok(())
}

fn resolve_dense(manifest: &PartManifest, wanted: &WantedFields) -> (dense: Result<
    NameMap<DenseEncoding>,
    ProjectionFault,
>)
    ensures
        match dense {
            Ok(table) => {
                &&& first_dense_fault(*manifest, *wanted, 0) is None
                &&& names::sorted_keys(table@)
                &&& forall|name: Seq<char>| #[trigger]
                    names::value_of(table@, name) == (if names::has_key(wanted.dense@, name) {
                        carried_encoding(*manifest, name)
                    } else {
                        None
                    })
            },
            Err(fault) => first_dense_fault(*manifest, *wanted, 0) == Some(fault@),
        },
{
    let mut dense: NameMap<DenseEncoding> = NameMap::new();
    let count: usize = wanted.dense.len();
    let mut i: usize = 0;
    while i < count
        invariant
            i <= count,
            count == wanted.dense@.len(),
            names::sorted_keys(dense@),
            first_dense_fault(*manifest, *wanted, 0) == first_dense_fault(
                *manifest,
                *wanted,
                i as int,
            ),
            forall|name: Seq<char>| #[trigger]
                names::value_of(dense@, name) == (if exists|k: int|
                    0 <= k < i && #[trigger] wanted.dense@[k].0 == name {
                    carried_encoding(*manifest, name)
                } else {
                    None
                }),
        decreases count - i,
    {
        let name = wanted.dense.name_at(i);
        let want_dim: usize = *wanted.dense.value_at(i);
        let spec = match manifest.dense.get(name.as_str()) {
            Some(spec) => spec,
            None => return Err(
                ProjectionFault::MissingDense {
                    name: name.clone(),
                    carried: manifest.dense.names(),
                },
            ),
        };
        if spec.dim != want_dim {
            return Err(
                ProjectionFault::Dimension {
                    name: name.clone(),
                    dim: spec.dim,
                    want_dim,
                },
            );
        }
        match check_source(
            name.as_str(),
            &spec.source,
            wanted.dense_sources.get(name.as_str()),
        ) {
            Ok(()) => {},
            Err(fault) => return Err(fault),
        }
        let ghost was = dense@;
        dense.insert(name.clone(), spec.encoding);
        assert forall|other: Seq<char>| #[trigger]
            names::value_of(dense@, other) == (if exists|k: int|
                0 <= k < i + 1 && #[trigger] wanted.dense@[k].0 == other {
                carried_encoding(*manifest, other)
            } else {
                None
            }) by {
            assert(names::value_of(was, other) == names::value_of(was, other));
            assert(wanted.dense@[i as int].0 == name@);
        }
        i = i + 1;
    }
    assert(first_dense_fault(*manifest, *wanted, count as int) is None);
    Ok(dense)
}

fn resolve_sparse(manifest: &PartManifest, wanted: &WantedFields) -> (sparse: Result<
    NameMap<()>,
    ProjectionFault,
>)
    ensures
        match sparse {
            Ok(table) => {
                &&& first_sparse_fault(*manifest, *wanted, 0) is None
                &&& names::sorted_keys(table@)
                &&& names::key_set(table@) =~= names::key_set(wanted.sparse@)
            },
            Err(fault) => first_sparse_fault(*manifest, *wanted, 0) == Some(fault@),
        },
{
    let count: usize = wanted.sparse.len();
    let mut i: usize = 0;
    while i < count
        invariant
            i <= count,
            count == wanted.sparse@.len(),
            first_sparse_fault(*manifest, *wanted, 0) == first_sparse_fault(
                *manifest,
                *wanted,
                i as int,
            ),
        decreases count - i,
    {
        let name = wanted.sparse.name_at(i);
        let spec = match manifest.sparse.get(name.as_str()) {
            Some(spec) => spec,
            None => return Err(
                ProjectionFault::MissingSparse {
                    name: name.clone(),
                    carried: manifest.sparse.names(),
                },
            ),
        };
        match check_source(
            name.as_str(),
            &spec.source,
            wanted.sparse_sources.get(name.as_str()),
        ) {
            Ok(()) => {},
            Err(fault) => return Err(fault),
        }
        i = i + 1;
    }
    assert(first_sparse_fault(*manifest, *wanted, count as int) is None);
    let sparse = wanted.sparse.copy();
    Ok(sparse)
}

/// What a build gets of a part and what it drops make up exactly what the part carries: a
/// projection can drop, never invent.
pub proof fn projection_only_drops(
    manifest: PartManifest,
    wanted: WantedFields,
    projection: PartProjection,
)
    requires
        projection_fault(manifest, wanted) is None,
        projection.projects(manifest, wanted),
        names::sorted_keys(wanted.dense@),
        names::sorted_keys(wanted.sparse@),
    ensures
        forall|name: Seq<char>| #[trigger]
            names::has_key(manifest.dense@, name) <==> (names::has_key(projection.dense@, name)
                || text::texts(projection.dropped_dense@).contains(name)),
        forall|name: Seq<char>|
            names::has_key(projection.dense@, name) ==> !#[trigger] text::texts(
                projection.dropped_dense@,
            ).contains(name),
        forall|name: Seq<char>| #[trigger]
            names::has_key(manifest.sparse@, name) <==> (names::has_key(projection.sparse@, name)
                || text::texts(projection.dropped_sparse@).contains(name)),
        forall|name: Seq<char>|
            names::has_key(projection.sparse@, name) ==> !#[trigger] text::texts(
                projection.dropped_sparse@,
            ).contains(name),
{
    names::lemma_left_out(names::keys(manifest.dense@), names::key_set(wanted.dense@));
    names::lemma_left_out(names::keys(manifest.sparse@), names::key_set(wanted.sparse@));
    assert forall|name: Seq<char>| #[trigger]
        names::has_key(manifest.dense@, name) <==> names::keys(manifest.dense@).contains(name) by {
        lemma_keys_contain(manifest.dense@, name);
    }
    assert forall|name: Seq<char>| #[trigger]
        names::has_key(manifest.sparse@, name) <==> names::keys(manifest.sparse@).contains(
            name,
        ) by {
        lemma_keys_contain(manifest.sparse@, name);
    }
    assert forall|name: Seq<char>| #[trigger]
        names::has_key(wanted.dense@, name) implies names::has_key(
        manifest.dense@,
        name,
    ) && names::has_key(projection.dense@, name) by {
        let k = choose|k: int| 0 <= k < wanted.dense@.len() && #[trigger] wanted.dense@[k].0
            == name;
        lemma_dense_supplied(manifest, wanted, 0, k);
        assert(names::value_of(projection.dense@, name) is Some);
    }
    assert forall|name: Seq<char>| #[trigger]
        names::has_key(projection.dense@, name) implies names::has_key(wanted.dense@, name) by {
        assert(names::value_of(projection.dense@, name) is Some);
    }
    assert forall|name: Seq<char>| #[trigger]
        names::has_key(projection.sparse@, name) <==> names::has_key(wanted.sparse@, name) by {
        assert(names::key_set(projection.sparse@).contains(name) <==> names::has_key(
            projection.sparse@,
            name,
        ));
        assert(names::key_set(wanted.sparse@).contains(name) <==> names::has_key(
            wanted.sparse@,
            name,
        ));
    }
    assert forall|name: Seq<char>| #[trigger]
        names::has_key(wanted.sparse@, name) implies names::has_key(manifest.sparse@, name) by {
        let k = choose|k: int| 0 <= k < wanted.sparse@.len() && #[trigger] wanted.sparse@[k].0
            == name;
        lemma_sparse_supplied(manifest, wanted, 0, k);
    }
}

proof fn lemma_keys_contain<T>(entries: Seq<(Seq<char>, T)>, name: Seq<char>)
    ensures
        names::has_key(entries, name) <==> names::keys(entries).contains(name),
{
    if names::has_key(entries, name) {
        let k = choose|k: int| 0 <= k < entries.len() && #[trigger] entries[k].0 == name;
        assert(names::keys(entries)[k] == name);
    }
    if names::keys(entries).contains(name) {
        let k = choose|k: int| 0 <= k < names::keys(entries).len() && names::keys(entries)[k]
            == name;
        assert(entries[k].0 == name);
    }
}

proof fn lemma_dense_supplied(manifest: PartManifest, wanted: WantedFields, from: int, k: int)
    requires
        first_dense_fault(manifest, wanted, from) is None,
        0 <= from <= k < wanted.dense@.len(),
    ensures
        names::has_key(manifest.dense@, wanted.dense@[k].0),
        dense_fault(manifest, wanted, wanted.dense@[k].0, wanted.dense@[k].1) is None,
    decreases k - from,
{
    if from < k {
        lemma_dense_supplied(manifest, wanted, from + 1, k);
    }
}

proof fn lemma_sparse_supplied(manifest: PartManifest, wanted: WantedFields, from: int, k: int)
    requires
        first_sparse_fault(manifest, wanted, from) is None,
        0 <= from <= k < wanted.sparse@.len(),
    ensures
        names::has_key(manifest.sparse@, wanted.sparse@[k].0),
        sparse_fault(manifest, wanted, wanted.sparse@[k].0) is None,
    decreases k - from,
{
    if from < k {
        lemma_sparse_supplied(manifest, wanted, from + 1, k);
    }
}

/// Nothing is dropped exactly when the build wants all that the part carries.
pub proof fn projection_of_everything_is_identity(
    manifest: PartManifest,
    wanted: WantedFields,
    projection: PartProjection,
)
    requires
        projection.projects(manifest, wanted),
    ensures
        projection.dropped_dense@.len() == 0 <==> (forall|name: Seq<char>|
            names::has_key(manifest.dense@, name) ==> #[trigger] names::has_key(
                wanted.dense@,
                name,
            )),
        projection.dropped_sparse@.len() == 0 <==> (forall|name: Seq<char>|
            names::has_key(manifest.sparse@, name) ==> #[trigger] names::has_key(
                wanted.sparse@,
                name,
            )),
        projection.dropped_payload@.len() == 0 <==> (match (manifest.payload, wanted.payload) {
            (Some(captured), Some(requested)) => forall|i: int|
                0 <= i < captured@.len() ==> names::has_key(
                    requested@,
                    #[trigger] captured@[i]@,
                ),
            _ => true,
        }),
{
    lemma_nothing_left_out(manifest.dense@, wanted.dense@);
    lemma_nothing_left_out(manifest.sparse@, wanted.sparse@);
    let dropped = text::texts(projection.dropped_dense@);
    assert(dropped.len() == projection.dropped_dense@.len());
    let surplus = surplus_payload(manifest, wanted);
    let listed = text::texts(projection.dropped_payload@);
    vstd::seq_lib::to_multiset_len(surplus);
    vstd::seq_lib::to_multiset_len(listed);
    if let (Some(captured), Some(requested)) = (manifest.payload, wanted.payload) {
        let list = text::texts(captured@);
        names::lemma_left_out(list, names::key_set(requested@));
        if surplus.len() == 0 {
            assert forall|i: int| 0 <= i < captured@.len() implies names::has_key(
                requested@,
                #[trigger] captured@[i]@,
            ) by {
                assert(list[i] == captured@[i]@);
                assert(list.contains(list[i]));
                assert(!surplus.contains(list[i]));
            }
        } else {
            assert(surplus.contains(surplus[0]));
            let i = choose|i: int| 0 <= i < list.len() && list[i] == surplus[0];
            assert(captured@[i]@ == surplus[0]);
        }
    }
}

proof fn lemma_nothing_left_out<A, B>(have: Seq<(Seq<char>, A)>, want: Seq<(Seq<char>, B)>)
    ensures
        names::left_out(names::keys(have), names::key_set(want)).len() == 0 <==> (forall|
            name: Seq<char>,
        |
            names::has_key(have, name) ==> #[trigger] names::has_key(want, name)),
{
    let rest = names::left_out(names::keys(have), names::key_set(want));
    names::lemma_left_out(names::keys(have), names::key_set(want));
    if rest.len() == 0 {
        assert forall|name: Seq<char>| names::has_key(have, name) implies #[trigger] names::has_key(
            want,
            name,
        ) by {
            lemma_keys_contain(have, name);
            assert(!rest.contains(name));
        }
    } else {
        assert(rest.contains(rest[0]));
        lemma_keys_contain(have, rest[0]);
        assert(names::has_key(have, rest[0]) && !names::has_key(want, rest[0]));
    }
}

/// The name of the sidecar belonging to the part named `part_name`.
pub open spec fn sidecar_name(part_name: Seq<char>) -> Seq<char> {
    part_name + ".meta"@
}

/// The name of the sidecar belonging to the part named `part_name`, in the same directory.
pub fn meta_path(part_name: &str) -> (name: String)
    ensures
        name@ == sidecar_name(part_name@),
{
    let mut name = part_name.to_owned();
    name.append(".meta");
    name
}

/// The name of the temporary file through which attempt `attempt` of process `pid` writes
/// `final_name`.
pub open spec fn temp_name(final_name: Seq<char>, pid: nat, attempt: nat) -> Seq<char> {
    final_name + "."@ + text::decimal_text(pid) + "."@ + text::decimal_text(attempt) + ".tmp"@
}

/// A temporary name for `final_name`: `<name>.<pid>.<n>.tmp`.
///
/// Unique per process and attempt, so two processes that were given the same input file never
/// write into one temporary file. Each renames its own complete file to the same final name.
pub fn unique_tmp_path(final_name: &str, pid: u32, attempt: u64) -> (name: String)
    ensures
        name@ == temp_name(final_name@, pid as nat, attempt as nat),
{
    let mut name = final_name.to_owned();
    name.append(".");
    name.append(text::decimal(pid as u128).as_str());
    name.append(".");
    name.append(text::decimal(attempt as u128).as_str());
    name.append(".tmp");
    name
}

/// Whether `temp_name` is `<final_name>.<anything>.tmp`.
pub open spec fn is_temp_name(temp_name: Seq<char>, final_name: Seq<char>) -> bool {
    &&& text::begins(temp_name, final_name)
    &&& text::begins(temp_name.skip(final_name.len() as int), "."@)
    &&& text::ends(temp_name.skip(final_name.len() as int).skip(1), ".tmp"@)
}

/// Whether `temp_name` is a temporary file for the final part named `final_name`.
///
/// Unambiguous because part names have a fixed length, so one final name is never a prefix of
/// another before the trailing dot.
pub fn is_temp_for(temp_name: &str, final_name: &str) -> (temporary: bool)
    ensures
        temporary == is_temp_name(temp_name@, final_name@),
{
    match text::strip_prefix(temp_name, final_name) {
        None => false,
        Some(rest) => match text::strip_prefix(rest, ".") {
            None => false,
            Some(tail) => {
                proof {
                    reveal_strlit(".");
                }
                text::ends_with(tail, ".tmp")
            },
        },
    }
}

/// The sweep recognises every temporary name of the part it sweeps for, and, of two part names of
/// one length, only those of the right one.
pub proof fn temp_names_are_recognised(
    final_name: Seq<char>,
    other: Seq<char>,
    pid: nat,
    attempt: nat,
)
    requires
        final_name.len() == other.len(),
    ensures
        is_temp_name(temp_name(final_name, pid, attempt), other) <==> final_name == other,
{
    reveal_strlit(".");
    reveal_strlit(".tmp");
    let temp = temp_name(final_name, pid, attempt);
    let tail = temp.skip(final_name.len() as int);
    let middle = text::decimal_text(pid) + "."@ + text::decimal_text(attempt);
    assert(temp.take(final_name.len() as int) =~= final_name);
    assert(tail =~= "."@ + middle + ".tmp"@);
    assert(tail.take(1) =~= "."@);
    assert(tail.skip(1) =~= middle + ".tmp"@);
    assert(tail.skip(1).skip(middle.len() as int) =~= ".tmp"@);
}

/// Two attempts to write one part, in one process or in two, never share a temporary file.
pub proof fn temp_names_are_distinct(
    final_name: Seq<char>,
    pid: nat,
    attempt: nat,
    other_pid: nat,
    other_attempt: nat,
)
    requires
        pid != other_pid || attempt != other_attempt,
    ensures
        temp_name(final_name, pid, attempt) != temp_name(final_name, other_pid, other_attempt),
{
    reveal_strlit(".");
    let one = temp_name(final_name, pid, attempt);
    let two = temp_name(final_name, other_pid, other_attempt);
    let from = final_name.len() as int + 1;
    assert(one.skip(from) =~= text::decimal_text(pid).push('.') + text::decimal_text(attempt)
        + ".tmp"@);
    assert(two.skip(from) =~= text::decimal_text(other_pid).push('.') + text::decimal_text(
        other_attempt,
    ) + ".tmp"@);
    if one == two {
        text::decimal_pairs_differ(pid, attempt, other_pid, other_attempt, '.', ".tmp"@);
    }
}

/// Whether a vector can have come from the column that is wanted for it: both are named and the same,
/// or one is not named.
pub open spec fn same_source(scattered: Option<String>, wanted: Option<String>) -> bool {
    scattered matches Some(s) ==> (wanted matches Some(w) ==> s@ == w@)
}

/// A part supplies what a build wants exactly where it carries every wanted dense vector, of the
/// wanted number of elements and from the wanted column, every wanted sparse vector, from the wanted
/// column, and, where it enumerated its payload, every wanted payload key.
pub proof fn a_part_supplies_every_wanted_field(manifest: PartManifest, wanted: WantedFields)
    ensures
        projection_fault(manifest, wanted) is None <==> {
            &&& forall|i: int|
                0 <= i < wanted.dense@.len() ==> (names::value_of(
                    manifest.dense@,
                    (#[trigger] wanted.dense@[i]).0,
                ) matches Some(spec) && spec.dim == wanted.dense@[i].1 && same_source(
                    spec.source,
                    names::value_of(wanted.dense_sources@, wanted.dense@[i].0),
                ))
            &&& forall|i: int|
                0 <= i < wanted.sparse@.len() ==> (names::value_of(
                    manifest.sparse@,
                    (#[trigger] wanted.sparse@[i]).0,
                ) matches Some(spec) && same_source(
                    spec.source,
                    names::value_of(wanted.sparse_sources@, wanted.sparse@[i].0),
                ))
            &&& manifest.payload matches Some(captured) ==> (wanted.payload matches Some(requested)
                ==> forall|i: int|
                0 <= i < requested@.len() ==> text::texts(captured@).contains(
                    (#[trigger] requested@[i]).0,
                ))
        },
{
    lemma_dense_faults(manifest, wanted, 0);
    lemma_sparse_faults(manifest, wanted, 0);
    match (manifest.payload, wanted.payload) {
        (Some(captured), Some(requested)) => {
            let list = names::keys(requested@);
            let have = text::texts(captured@).to_set();
            let missing = names::left_out(list, have);
            names::lemma_left_out(list, have);
            if missing.len() > 0 {
                assert(missing.contains(missing[0]));
                let i = list.index_of(missing[0]);
                assert(requested@[i].0 == missing[0]);
            } else {
                assert forall|i: int| 0 <= i < requested@.len() implies text::texts(
                    captured@,
                ).contains((#[trigger] requested@[i]).0) by {
                    assert(list[i] == requested@[i].0);
                    assert(list.contains(list[i]));
                    assert(!missing.contains(list[i]));
                }
            }
        },
        _ => {},
    }
}

proof fn lemma_dense_faults(manifest: PartManifest, wanted: WantedFields, from: int)
    requires
        0 <= from,
    ensures
        first_dense_fault(manifest, wanted, from) is None <==> forall|i: int|
            from <= i < wanted.dense@.len() ==> (names::value_of(
                manifest.dense@,
                (#[trigger] wanted.dense@[i]).0,
            ) matches Some(spec) && spec.dim == wanted.dense@[i].1 && same_source(
                spec.source,
                names::value_of(wanted.dense_sources@, wanted.dense@[i].0),
            )),
    decreases wanted.dense@.len() - from,
{
    if from < wanted.dense@.len() {
        lemma_dense_faults(manifest, wanted, from + 1);
        if first_dense_fault(manifest, wanted, from) is None {
            assert forall|i: int| from <= i < wanted.dense@.len() implies (names::value_of(
                manifest.dense@,
                (#[trigger] wanted.dense@[i]).0,
            ) matches Some(spec) && spec.dim == wanted.dense@[i].1 && same_source(
                spec.source,
                names::value_of(wanted.dense_sources@, wanted.dense@[i].0),
            )) by {}
        } else {
            assert(wanted.dense@[from].0 == wanted.dense@[from].0);
        }
    }
}

proof fn lemma_sparse_faults(manifest: PartManifest, wanted: WantedFields, from: int)
    requires
        0 <= from,
    ensures
        first_sparse_fault(manifest, wanted, from) is None <==> forall|i: int|
            from <= i < wanted.sparse@.len() ==> (names::value_of(
                manifest.sparse@,
                (#[trigger] wanted.sparse@[i]).0,
            ) matches Some(spec) && same_source(
                spec.source,
                names::value_of(wanted.sparse_sources@, wanted.sparse@[i].0),
            )),
    decreases wanted.sparse@.len() - from,
{
    if from < wanted.sparse@.len() {
        lemma_sparse_faults(manifest, wanted, from + 1);
        if first_sparse_fault(manifest, wanted, from) is None {
            assert forall|i: int| from <= i < wanted.sparse@.len() implies (names::value_of(
                manifest.sparse@,
                (#[trigger] wanted.sparse@[i]).0,
            ) matches Some(spec) && same_source(
                spec.source,
                names::value_of(wanted.sparse_sources@, wanted.sparse@[i].0),
            )) by {}
        } else {
            assert(wanted.sparse@[from].0 == wanted.sparse@[from].0);
        }
    }
}

/// Every wanted vector is kept and no other: a dense one is decoded at the width that the part wrote
/// it at, whatever the collection says by now. Of the payload the wanted keys are kept, or all where
/// none are named.
pub proof fn a_projection_keeps_what_is_wanted(
    manifest: PartManifest,
    wanted: WantedFields,
    projection: PartProjection,
    name: Seq<char>,
)
    requires
        projection_fault(manifest, wanted) is None,
        projection.projects(manifest, wanted),
    ensures
        names::has_key(projection.dense@, name) <==> names::has_key(wanted.dense@, name),
        names::value_of(projection.dense@, name) matches Some(encoding) ==> (names::value_of(
            manifest.dense@,
            name,
        ) matches Some(spec) && spec.encoding == encoding),
        names::has_key(projection.sparse@, name) <==> names::has_key(wanted.sparse@, name),
        projection.payload is None <==> wanted.payload is None,
        projection.payload matches Some(keep) ==> (names::has_key(keep@, name)
            <==> names::has_key(wanted.payload->0@, name)),
{
    assert(names::value_of(projection.dense@, name) == (if names::has_key(wanted.dense@, name) {
        carried_encoding(manifest, name)
    } else {
        None
    }));
    if names::has_key(wanted.dense@, name) {
        let k = choose|k: int| 0 <= k < wanted.dense@.len() && #[trigger] wanted.dense@[k].0
            == name;
        lemma_dense_supplied(manifest, wanted, 0, k);
    }
    assert(names::key_set(projection.sparse@).contains(name) == names::key_set(
        wanted.sparse@,
    ).contains(name));
}

/// What stands beside a part, or is left of writing it, is told from a part by its name: its sidecar
/// is passed over when a shard is planned, and a temporary file is refused as uncommitted.
pub proof fn what_is_beside_a_part_is_no_part(part: Seq<char>, pid: nat, attempt: nat)
    requires
        part.len() > 0,
    ensures
        crate::plan::extension(sidecar_name(part)) == Some("meta"@),
        crate::plan::extension(temp_name(part, pid, attempt)) == Some("tmp"@),
        !crate::placement::is_part_name(sidecar_name(part)),
        !crate::placement::is_part_name(temp_name(part, pid, attempt)),
{
    reveal_strlit(".meta");
    reveal_strlit(".tmp");
    reveal_strlit(".");
    let sidecar = sidecar_name(part);
    let temp = temp_name(part, pid, attempt);
    assert(sidecar.skip(sidecar.len() - 5) =~= ".meta"@);
    assert(temp.skip(temp.len() - 4) =~= ".tmp"@);
    crate::plan::extensions_are_told_by_the_ending(sidecar);
    crate::plan::extensions_are_told_by_the_ending(temp);
    assert(sidecar[part.len() as int] == '.');
    assert(temp[part.len() as int] == '.');
}

} // verus!
