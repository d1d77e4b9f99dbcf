//! The gates that a config document passes before anything is built from it.
//!
//! Nothing that cannot be changed after the build may be left to a default, and nothing that
//! depends on the build host may shape an artifact. The gates read the raw document, because once
//! defaults are applied an absent field cannot be told from a stated one.
use vstd::prelude::*;
use vstd::string::*;
use crate::cli;
use crate::config;
use crate::config::{CollectionConfig, LoadedConfig, VectorParams};
use crate::dense_codec::VectorStorageDatatype;
use crate::json;
use crate::json::{Json, JsonValue};
use crate::names::NameMap;
use crate::text;

verus! {

/// How much a field has to say before it counts as stated.
///
/// Presence alone is not always enough: some fields use a sentinel to mean "derive this from the
/// host", and a config that carries it is exactly as host-dependent as one that omits the field.
#[derive(Debug, Clone, Copy, PartialEq, Eq, Structural)]
pub enum ValueRule {
    /// The key must exist.
    Present,
    /// The key must exist and not be `null`.
    NonNull,
    /// The key must exist and not be `0`.
    NonZero,
}

impl ValueRule {
    /// Whether a value counts as stated.
    pub open spec fn accepts(self, value: JsonValue) -> bool {
        match self {
            ValueRule::Present => true,
            ValueRule::NonNull => value != JsonValue::Null,
            ValueRule::NonZero => value != JsonValue::Unsigned(0),
        }
    }

    fn satisfied_by(self, value: &Json) -> (yes: bool)
        ensures
            yes == self.accepts(value@),
    {
        match self {
            ValueRule::Present => true,
            ValueRule::NonNull => match value {
                Json::Null => false,
                _ => true,
            },
            ValueRule::NonZero => match value {
                Json::Unsigned(n) => *n != 0,
                _ => true,
            },
        }
    }

    /// What is said of a field that is not stated.
    pub open spec fn complaint_text(self) -> Seq<char> {
        match self {
            ValueRule::Present => "is missing"@,
            ValueRule::NonNull => "is missing or null (null defers to a default)"@,
            ValueRule::NonZero => "is missing or 0 (0 means 'derive from this host')"@,
        }
    }

    /// What is said of a field that is not stated.
    pub fn complaint(self) -> (complaint: &'static str)
        ensures
            complaint@ == self.complaint_text(),
    {
        match self {
            ValueRule::Present => "is missing",
            ValueRule::NonNull => "is missing or null (null defers to a default)",
            ValueRule::NonZero => "is missing or 0 (0 means 'derive from this host')",
        }
    }
}

/// A field that must be stated explicitly, and why.
pub struct Required {
    /// Dotted path into the document. `*` stands for every vector.
    pub path: &'static str,
    /// Another spelling of the last name.
    pub alias: Option<&'static str>,
    /// What counts as a stated value.
    pub value: ValueRule,
    pub reason: &'static str,
}

/// The fields that must be stated.
///
/// A field is required exactly when it is frozen into the artifact, or when its default is derived
/// from the build host. Everything else takes its default and can be adjusted after the build.
pub open spec fn required_fields() -> Seq<Required> {
    seq![
        Required {
            path: "params.shard_number",
            alias: None,
            value: ValueRule::NonZero,
            reason: "determines the hash ring; defaults to 1 and cannot be changed after \
             creation",
        },
        Required {
            path: "params.sharding_method",
            alias: None,
            value: ValueRule::NonNull,
            reason: "determines whether routing is by point id or by shard key",
        },
        Required {
            path: "params.hash_ring_shard_scale",
            alias: None,
            value: ValueRule::NonZero,
            reason: "virtual nodes per shard; decides routing exactly as shard_number does, \
             and is read-only after creation",
        },
        Required {
            path: "optimizer_config.max_segment_size",
            alias: Some("max_segment_size_kb"),
            value: ValueRule::NonNull,
            reason: "defaults to num_indexing_threads * 256000 KB; bounds each built segment",
        },
        Required {
            path: "hnsw_config.m",
            alias: None,
            value: ValueRule::NonNull,
            reason: "triggers a full segment rebuild on mismatch",
        },
        Required {
            path: "hnsw_config.ef_construct",
            alias: None,
            value: ValueRule::NonNull,
            reason: "triggers a full segment rebuild on mismatch",
        },
        Required {
            path: "hnsw_config.full_scan_threshold",
            alias: Some("full_scan_threshold_kb"),
            value: ValueRule::NonNull,
            reason: "triggers a full segment rebuild on mismatch",
        },
        Required {
            path: "hnsw_config.payload_m",
            alias: None,
            value: ValueRule::Present,
            reason: "triggers a full segment rebuild on mismatch; state null to mean unset",
        },
        Required {
            path: "hnsw_config.inline_storage",
            alias: None,
            value: ValueRule::Present,
            reason: "triggers a full segment rebuild on mismatch; state null to mean unset",
        },
        Required {
            path: "quantization_config",
            alias: None,
            value: ValueRule::Present,
            reason: "any difference forces a rebuild; state null to mean no quantization",
        },
        Required {
            path: "optimizer_config.indexing_threshold",
            alias: Some("indexing_threshold_kb"),
            value: ValueRule::NonNull,
            reason: "feeds deferred_internal_id, which is baked into every segment",
        },
        Required {
            path: "params.sparse_vectors.*.index",
            alias: None,
            value: ValueRule::NonNull,
            reason: "sparse index config; state at least {\"memory\": ...} rather than \
             inheriting",
        },
        Required {
            path: "params.sparse_vectors.*.index.memory",
            alias: Some("on_disk"),
            value: ValueRule::NonNull,
            reason: "defaults to pinned (RAM); an inverted index over many non-zeros per \
             point is large, and the resolved placement is compared by the \
             config-mismatch optimizer",
        },
        Required {
            path: "params.sparse_vectors.*.index.wand_pruning",
            alias: None,
            value: ValueRule::Present,
            reason: "baked into the built segment's sparse index config; state null to mean \
             Qdrant's default (enabled)",
        },
        Required {
            path: "params.vectors.*.size",
            alias: None,
            value: ValueRule::NonNull,
            reason: "vector dimensionality",
        },
        Required {
            path: "params.vectors.*.datatype",
            alias: None,
            value: ValueRule::Present,
            reason: "storage element width; state null to mean float32",
        },
        Required {
            path: "params.vectors.*.multivector_config",
            alias: None,
            value: ValueRule::Present,
            reason: "changes vector storage layout; state null to mean single-vector",
        },
        Required {
            path: "params.vectors.*.distance",
            alias: None,
            value: ValueRule::NonNull,
            reason: "distance function",
        },
    ]
}

fn required() -> (fields: Vec<Required>)
    ensures
        fields@ == required_fields(),
{
    let fields = vec![
        Required {
            path: "params.shard_number",
            alias: None,
            value: ValueRule::NonZero,
            reason: "determines the hash ring; defaults to 1 and cannot be changed after \
             creation",
        },
        Required {
            path: "params.sharding_method",
            alias: None,
            value: ValueRule::NonNull,
            reason: "determines whether routing is by point id or by shard key",
        },
        Required {
            path: "params.hash_ring_shard_scale",
            alias: None,
            value: ValueRule::NonZero,
            reason: "virtual nodes per shard; decides routing exactly as shard_number does, \
             and is read-only after creation",
        },
        Required {
            path: "optimizer_config.max_segment_size",
            alias: Some("max_segment_size_kb"),
            value: ValueRule::NonNull,
            reason: "defaults to num_indexing_threads * 256000 KB; bounds each built segment",
        },
        Required {
            path: "hnsw_config.m",
            alias: None,
            value: ValueRule::NonNull,
            reason: "triggers a full segment rebuild on mismatch",
        },
        Required {
            path: "hnsw_config.ef_construct",
            alias: None,
            value: ValueRule::NonNull,
            reason: "triggers a full segment rebuild on mismatch",
        },
        Required {
            path: "hnsw_config.full_scan_threshold",
            alias: Some("full_scan_threshold_kb"),
            value: ValueRule::NonNull,
            reason: "triggers a full segment rebuild on mismatch",
        },
        Required {
            path: "hnsw_config.payload_m",
            alias: None,
            value: ValueRule::Present,
            reason: "triggers a full segment rebuild on mismatch; state null to mean unset",
        },
        Required {
            path: "hnsw_config.inline_storage",
            alias: None,
            value: ValueRule::Present,
            reason: "triggers a full segment rebuild on mismatch; state null to mean unset",
        },
        Required {
            path: "quantization_config",
            alias: None,
            value: ValueRule::Present,
            reason: "any difference forces a rebuild; state null to mean no quantization",
        },
        Required {
            path: "optimizer_config.indexing_threshold",
            alias: Some("indexing_threshold_kb"),
            value: ValueRule::NonNull,
            reason: "feeds deferred_internal_id, which is baked into every segment",
        },
        Required {
            path: "params.sparse_vectors.*.index",
            alias: None,
            value: ValueRule::NonNull,
            reason: "sparse index config; state at least {\"memory\": ...} rather than \
             inheriting",
        },
        Required {
            path: "params.sparse_vectors.*.index.memory",
            alias: Some("on_disk"),
            value: ValueRule::NonNull,
            reason: "defaults to pinned (RAM); an inverted index over many non-zeros per \
             point is large, and the resolved placement is compared by the \
             config-mismatch optimizer",
        },
        Required {
            path: "params.sparse_vectors.*.index.wand_pruning",
            alias: None,
            value: ValueRule::Present,
            reason: "baked into the built segment's sparse index config; state null to mean \
             Qdrant's default (enabled)",
        },
        Required {
            path: "params.vectors.*.size",
            alias: None,
            value: ValueRule::NonNull,
            reason: "vector dimensionality",
        },
        Required {
            path: "params.vectors.*.datatype",
            alias: None,
            value: ValueRule::Present,
            reason: "storage element width; state null to mean float32",
        },
        Required {
            path: "params.vectors.*.multivector_config",
            alias: None,
            value: ValueRule::Present,
            reason: "changes vector storage layout; state null to mean single-vector",
        },
        Required {
            path: "params.vectors.*.distance",
            alias: None,
            value: ValueRule::NonNull,
            reason: "distance function",
        },
    ];
    assert(fields@ =~= required_fields());
    fields
}

/// The names in a dotted path.
pub open spec fn split_dots(path: Seq<char>) -> Seq<Seq<char>>
    decreases path.len(),
{
    let p = cli::position_of(path, '.');
    if p < 0 || p >= path.len() {
        seq![path]
    } else {
        seq![path.take(p)] + split_dots(path.skip(p + 1))
    }
}

/// The value that a path of names leads to.
pub open spec fn walk(value: JsonValue, path: Seq<Seq<char>>) -> Option<JsonValue>
    decreases path.len(),
{
    if path.len() == 0 {
        Some(value)
    } else {
        match json::get_member(value, path[0]) {
            Some(inner) => walk(inner, path.skip(1)),
            None => None,
        }
    }
}

/// The value at a dotted path. The other spelling of the last name counts only where the first is
/// absent.
pub open spec fn looked_up(raw: JsonValue, path: Seq<char>, alias: Option<Seq<char>>) -> Option<
    JsonValue,
> {
    let names = split_dots(path);
    match walk(raw, names.drop_last()) {
        Some(node) => match (json::get_member(node, names.last()), alias) {
            (Some(value), _) => Some(value),
            (None, Some(other)) => json::get_member(node, other),
            (None, None) => None,
        },
        None => None,
    }
}

proof fn lemma_split_dots(path: Seq<char>)
    ensures
        split_dots(path).len() > 0,
    decreases path.len(),
{
    let p = cli::position_of(path, '.');
    if 0 <= p < path.len() {
        lemma_split_dots(path.skip(p + 1));
    }
}

/// Cuts a dotted path into its names.
fn split_path(path: &str) -> (names: Vec<String>)
    ensures
        text::texts(names@) == split_dots(path@),
{
    let chars = text::chars_of(path);
    let mut names: Vec<String> = Vec::new();
    let mut from: usize = 0;
    let mut at: usize = 0;
    assert(path@.skip(0) =~= path@);
    assert(text::texts(names@) + split_dots(path@) =~= split_dots(path@));
    while at < chars.len()
        invariant
            chars@ == path@,
            from <= at <= chars.len(),
            text::texts(names@) + split_dots(path@.skip(from as int)) == split_dots(path@),
            cli::position_of(path@.skip(from as int), '.') == at - from + cli::position_of(
                path@.skip(at as int),
                '.',
            ),
        decreases chars.len() - at,
    {
        assert(path@.skip(at as int)[0] == chars@[at as int]);
        assert(path@.skip(at as int).skip(1) =~= path@.skip(at + 1));
        if chars[at] == '.' {
            let ghost rest = path@.skip(from as int);
            let ghost was = names@;
            names.push(path.substring_char(from, at).to_owned());
            assert(rest.take(at - from) =~= path@.subrange(from as int, at as int));
            assert(rest.skip(at - from + 1) =~= path@.skip(at + 1));
            assert(text::texts(names@) =~= text::texts(was).push(rest.take(at - from)));
            assert(text::texts(names@) + split_dots(path@.skip(at + 1)) =~= text::texts(was)
                + split_dots(rest));
            from = at + 1;
        }
        at = at + 1;
    }
    let ghost rest = path@.skip(from as int);
    assert(path@.skip(at as int).len() == 0);
    assert(split_dots(rest) =~= seq![rest]);
    let ghost was = names@;
    names.push(path.substring_char(from, chars.len()).to_owned());
    assert(path@.subrange(from as int, chars@.len() as int) =~= rest);
    assert(text::texts(names@) =~= text::texts(was).push(rest));
    assert(text::texts(names@) =~= split_dots(path@));
    names
}

/// Resolve a dotted path to its value, accepting `alias` for the last name.
///
/// An explicit `null` resolves to that `null`, so the value rule decides whether it counts.
fn lookup<'a>(raw: &'a Json, path: &str, alias: Option<&'static str>) -> (found: Option<&'a Json>)
    ensures
        match found {
            Some(value) => looked_up(
                raw@,
                path@,
                match alias {
                    Some(a) => Some(a@),
                    None => None,
                },
            ) == Some(value@),
            None => looked_up(
                raw@,
                path@,
                match alias {
                    Some(a) => Some(a@),
                    None => None,
                },
            ) is None,
        },
{
    let names = split_path(path);
    proof {
        lemma_split_dots(path@);
    }
    let ghost all = split_dots(path@);
    let ghost front = all.drop_last();
    assert(names@.len() == all.len());
    let mut node = raw;
    let mut i: usize = 0;
    assert(front.skip(0) =~= front);
    while i + 1 < names.len()
        invariant
            text::texts(names@) == all,
            all == split_dots(path@),
            all.len() > 0,
            front == all.drop_last(),
            i < names.len(),
            walk(raw@, front) == walk(node@, front.skip(i as int)),
        decreases names.len() - i,
    {
        assert(front.skip(i as int)[0] == names@[i as int]@) by {
            assert(text::texts(names@)[i as int] == names@[i as int]@);
        }
        assert(front.skip(i as int).skip(1) =~= front.skip(i + 1));
        match node.get(names[i].as_str()) {
            Some(inner) => {
                node = inner;
            },
            None => {
                return None;
            },
        }
        i = i + 1;
    }
    assert(front.skip(i as int).len() == 0);
    assert(all.last() == names@[i as int]@) by {
        assert(text::texts(names@)[i as int] == names@[i as int]@);
    }
    match node.get(names[i].as_str()) {
        Some(value) => Some(value),
        None => match alias {
            Some(other) => node.get(other),
            None => None,
        },
    }
}

/// The paths of one field of every vector in a table of vectors.
pub open spec fn vector_paths(
    head: Seq<char>,
    members: Seq<(Seq<char>, JsonValue)>,
    suffix: Seq<char>,
) -> Seq<Seq<char>> {
    Seq::new(members.len(), |i: int| head + members[i].0 + "."@ + suffix)
}

/// The paths that a pattern stands for: itself, or one for every configured vector. The single
/// unnamed vector is told by its `size`.
pub open spec fn expanded(raw: JsonValue, pattern: Seq<char>) -> Seq<Seq<char>> {
    if text::begins(pattern, "params.sparse_vectors.*."@) {
        match walk(raw, seq!["params"@, "sparse_vectors"@]) {
            Some(JsonValue::Object(members)) => vector_paths(
                "params.sparse_vectors."@,
                members,
                pattern.skip("params.sparse_vectors.*."@.len() as int),
            ),
            _ => Seq::empty(),
        }
    } else if text::begins(pattern, "params.vectors.*."@) {
        let suffix = pattern.skip("params.vectors.*."@.len() as int);
        match walk(raw, seq!["params"@, "vectors"@]) {
            Some(vectors) => if json::get_member(vectors, "size"@) is Some {
                seq!["params.vectors."@ + suffix]
            } else {
                match vectors {
                    JsonValue::Object(members) => vector_paths(
                        "params.vectors."@,
                        members,
                        suffix,
                    ),
                    _ => Seq::empty(),
                }
            },
            None => Seq::empty(),
        }
    } else {
        seq![pattern]
    }
}

fn list_vector_paths(head: &str, members: &Vec<(String, Json)>, suffix: &str) -> (paths: Vec<String>)
    ensures
        text::texts(paths@) == vector_paths(head@, json::members_view(members@), suffix@),
{
    proof {
        json::lemma_members_at(members@);
    }
    let ghost view = json::members_view(members@);
    let mut paths: Vec<String> = Vec::new();
    let mut i: usize = 0;
    while i < members.len()
        invariant
            i <= members.len(),
            view == json::members_view(members@),
            view.len() == members@.len(),
            forall|k: int|
                0 <= k < members@.len() ==> #[trigger] view[k] == (members@[k].0@, members@[k].1@),
            paths@.len() == i,
            forall|k: int|
                0 <= k < i ==> (#[trigger] paths@[k])@ == head@ + view[k].0 + "."@ + suffix@,
        decreases members.len() - i,
    {
        let mut path = head.to_owned();
        path.append(members[i].0.as_str());
        path.append(".");
        path.append(suffix);
        assert(view[i as int].0 == members@[i as int].0@);
        paths.push(path);
        i = i + 1;
    }
    assert(text::texts(paths@) =~= vector_paths(head@, view, suffix@));
    paths
}

fn pointer<'a>(raw: &'a Json, outer: &str, inner: &str) -> (found: Option<&'a Json>)
    ensures
        match found {
            Some(value) => walk(raw@, seq![outer@, inner@]) == Some(value@),
            None => walk(raw@, seq![outer@, inner@]) is None,
        },
{
    let ghost path = seq![outer@, inner@];
    assert(path.skip(1) =~= seq![inner@]);
    assert(path.skip(1).skip(1) =~= Seq::<Seq<char>>::empty());
    proof {
        reveal_with_fuel(walk, 3);
    }
    match raw.get(outer) {
        Some(value) => value.get(inner),
        None => None,
    }
}

/// Expand a pattern into one path per configured vector.
fn expand_vector_wildcard(raw: &Json, pattern: &'static str) -> (paths: Vec<String>)
    ensures
        text::texts(paths@) == expanded(raw@, pattern@),
{
    if text::starts_with(pattern, "params.sparse_vectors.*.") {
        return expand_sparse_wildcard(raw, pattern);
    }
    let mut paths: Vec<String> = Vec::new();
    assert(text::texts(paths@) =~= Seq::empty());
    let suffix = match text::strip_prefix(pattern, "params.vectors.*.") {
        Some(suffix) => suffix,
        None => {
            paths.push(pattern.to_owned());
            assert(text::texts(paths@) =~= seq![pattern@]);
            return paths;
        },
    };
    match pointer(raw, "params", "vectors") {
        Some(vectors) => {
            if vectors.get("size").is_some() {
                let mut path = "params.vectors.".to_owned();
                path.append(suffix);
                let ghost added = path@;
                paths.push(path);
                assert(text::texts(paths@) =~= seq![added]);
                return paths;
            }
            match vectors {
                Json::Object(members) => list_vector_paths("params.vectors.", members, suffix),
                _ => paths,
            }
        },
        None => paths,
    }
}

/// Expand a pattern into one path per sparse vector, of which there may be none.
fn expand_sparse_wildcard(raw: &Json, pattern: &'static str) -> (paths: Vec<String>)
    requires
        text::begins(pattern@, "params.sparse_vectors.*."@),
    ensures
        text::texts(paths@) == expanded(raw@, pattern@),
{
    let paths: Vec<String> = Vec::new();
    assert(text::texts(paths@) =~= Seq::empty());
    let suffix = match text::strip_prefix(pattern, "params.sparse_vectors.*.") {
        Some(suffix) => suffix,
        None => {
            return paths;
        },
    };
    match pointer(raw, "params", "sparse_vectors") {
        Some(Json::Object(members)) => list_vector_paths(
            "params.sparse_vectors.",
            members,
            suffix,
        ),
        _ => paths,
    }
}

/// Whether the field at `path` is stated.
pub open spec fn is_stated(raw: JsonValue, field: Required, path: Seq<char>) -> bool {
    match looked_up(
        raw,
        path,
        match field.alias {
            Some(alias) => Some(alias@),
            None => None,
        },
    ) {
        Some(value) => field.value.accepts(value),
        None => false,
    }
}

/// What is said of a field at `path` that is not stated.
pub open spec fn missing_line(field: Required, path: Seq<char>) -> Seq<char> {
    "  "@ + path + " "@ + field.value.complaint_text() + "\n      -> "@ + field.reason@
}

/// What is said of the paths of one field.
pub open spec fn missing_paths(raw: JsonValue, field: Required, paths: Seq<Seq<char>>) -> Seq<
    Seq<char>,
>
    decreases paths.len(),
{
    if paths.len() == 0 {
        Seq::empty()
    } else {
        let front = missing_paths(raw, field, paths.drop_last());
        if is_stated(raw, field, paths.last()) {
            front
        } else {
            front.push(missing_line(field, paths.last()))
        }
    }
}

/// What is said of a document: a line for each path that must be stated and is not.
pub open spec fn missing_lines(raw: JsonValue, fields: Seq<Required>) -> Seq<Seq<char>>
    decreases fields.len(),
{
    if fields.len() == 0 {
        Seq::empty()
    } else {
        let last = fields.last();
        missing_lines(raw, fields.drop_last()) + missing_paths(
            raw,
            last,
            expanded(raw, last.path@),
        )
    }
}

/// The fields that a document leaves to a default.
#[derive(Debug)]
pub struct MissingFields {
    pub lines: Vec<String>,
}

impl MissingFields {
    pub open spec fn text(self) -> Seq<char> {
        "config must state these fields explicitly; leaving them to a default or \
             an \"auto\" sentinel couples the build to this machine:\n"@
            + text::joined(text::texts(self.lines@), "\n"@)
            + "\n\nNote: `GET /collections/{name}` returns `default_segment_number: 0` \
             and `max_segment_size: null` when they were never set — both mean \
             \"derive from this host\", so a config exported from a live collection \
             usually needs those two pinned to real values before it can be built \
             from."@
    }

    /// The message for the operator.
    pub fn message(&self) -> (message: String)
        ensures
            message@ == self.text(),
    {
        let mut message = "config must state these fields explicitly; leaving them to a default or \
             an \"auto\" sentinel couples the build to this machine:\n".to_owned();
        message.append(text::join(&self.lines, "\n").as_str());
        message.append(
            "\n\nNote: `GET /collections/{name}` returns `default_segment_number: 0` \
             and `max_segment_size: null` when they were never set — both mean \
             \"derive from this host\", so a config exported from a live collection \
             usually needs those two pinned to real values before it can be built \
             from.",
        );
        message
    }
}

/// The keys of a document that the parser dropped.
#[derive(Debug)]
pub struct UnknownFields {
    pub lines: Vec<String>,
}

impl UnknownFields {
    pub open spec fn text(self) -> Seq<char> {
        "config contains fields Qdrant's parser does not recognise (typos?):\n"@
            + text::joined(text::texts(self.lines@), "\n"@)
            + "\n\nEach listed key was silently dropped during parsing, so the build \
             would run with that field at its default. Fix the spelling, or remove \
             the key."@
    }

    /// The message for the operator.
    pub fn message(&self) -> (message: String)
        ensures
            message@ == self.text(),
    {
        let mut message = "config contains fields Qdrant's parser does not recognise (typos?):\n".to_owned();
        message.append(text::join(&self.lines, "\n").as_str());
        message.append(
            "\n\nEach listed key was silently dropped during parsing, so the build \
             would run with that field at its default. Fix the spelling, or remove \
             the key.",
        );
        message
    }
}

/// What no artifact could satisfy.
#[derive(Debug)]
pub struct HardLimits {
    pub lines: Vec<String>,
}

impl HardLimits {
    pub open spec fn text(self) -> Seq<char> {
        "config is structurally impossible, not just unwise:\n"@
            + text::joined(text::texts(self.lines@), "\n"@)
    }

    /// The message for the operator.
    pub fn message(&self) -> (message: String)
        ensures
            message@ == self.text(),
    {
        let mut message = "config is structurally impossible, not just unwise:\n".to_owned();
        message.append(text::join(&self.lines, "\n").as_str());
        message
    }
}

/// Reject documents that leave any required field to a default.
pub fn require_explicit_fields(raw: &Json) -> (checked: Result<(), MissingFields>)
    ensures
        match checked {
            Ok(()) => missing_lines(raw@, required_fields()).len() == 0,
            Err(err) => {
                &&& missing_lines(raw@, required_fields()).len() > 0
                &&& text::texts(err.lines@) == missing_lines(raw@, required_fields())
            },
        },
{
    let fields = required();
    let mut lines: Vec<String> = Vec::new();
    let mut i: usize = 0;
    assert(fields@.take(0) =~= Seq::empty());
    assert(text::texts(lines@) =~= Seq::empty());
    while i < fields.len()
        invariant
            i <= fields.len(),
            text::texts(lines@) == missing_lines(raw@, fields@.take(i as int)),
        decreases fields.len() - i,
    {
        let ghost was = text::texts(lines@);
        let ghost field = fields@[i as int];
        assert(fields@.take(i + 1).drop_last() =~= fields@.take(i as int));
        let paths = expand_vector_wildcard(raw, fields[i].path);
        let ghost all = expanded(raw@, field.path@);
        let mut j: usize = 0;
        assert(all.take(0) =~= Seq::empty());
        assert(was + missing_paths(raw@, field, all.take(0)) =~= was);
        while j < paths.len()
            invariant
                j <= paths.len(),
                i < fields.len(),
                field == fields@[i as int],
                text::texts(paths@) == all,
                text::texts(lines@) == was + missing_paths(raw@, field, all.take(j as int)),
            decreases paths.len() - j,
        {
            assert(all.take(j + 1).drop_last() =~= all.take(j as int));
            assert(all.take(j + 1).last() == paths@[j as int]@) by {
                assert(text::texts(paths@)[j as int] == paths@[j as int]@);
            }
            let stated = match lookup(raw, paths[j].as_str(), fields[i].alias) {
                Some(value) => fields[i].value.satisfied_by(value),
                None => false,
            };
            if !stated {
                let ghost before = text::texts(lines@);
                let mut line = "  ".to_owned();
                line.append(paths[j].as_str());
                line.append(" ");
                line.append(fields[i].value.complaint());
                line.append("\n      -> ");
                line.append(fields[i].reason);
                lines.push(line);
                assert(text::texts(lines@) =~= before.push(
                    missing_line(field, paths@[j as int]@),
                ));
                assert(text::texts(lines@) =~= was + missing_paths(raw@, field, all.take(j + 1)));
            }
            j = j + 1;
        }
        assert(all.take(all.len() as int) =~= all);
        i = i + 1;
    }
    assert(fields@.take(fields@.len() as int) =~= fields@);
    if lines.len() > 0 {
        return Err(MissingFields { lines });
    }
    Ok(())
}

/// The name under which a field is written back, whichever of its spellings was read.
pub open spec fn canonical_name(key: Seq<char>) -> Seq<char> {
    if key == "max_segment_size_kb"@ {
        "max_segment_size"@
    } else if key == "memmap_threshold_kb"@ {
        "memmap_threshold"@
    } else if key == "indexing_threshold_kb"@ {
        "indexing_threshold"@
    } else if key == "full_scan_threshold_kb"@ {
        "full_scan_threshold"@
    } else {
        key
    }
}

/// The name under which a field is written back, whichever of its spellings was read.
pub fn canonical_key<'a>(key: &'a str) -> (name: &'a str)
    ensures
        name@ == canonical_name(key@),
{
    if text::same(key, "max_segment_size_kb") {
        "max_segment_size"
    } else if text::same(key, "memmap_threshold_kb") {
        "memmap_threshold"
    } else if text::same(key, "indexing_threshold_kb") {
        "indexing_threshold"
    } else if text::same(key, "full_scan_threshold_kb") {
        "full_scan_threshold"
    } else {
        key
    }
}

/// A key within the object at `path`.
pub open spec fn dotted(path: Seq<char>, key: Seq<char>) -> Seq<char> {
    if path.len() == 0 {
        key
    } else {
        path + "."@ + key
    }
}

/// The paths below `path` of the keys that a document states and the parsed config does not have.
/// A key that holds `null` means the same wherever it stands, so it is passed over; a value that
/// is no object is a leaf.
pub open spec fn unknown_keys(raw: JsonValue, parsed: JsonValue, path: Seq<char>) -> Seq<Seq<char>>
    decreases raw,
{
    match (raw, parsed) {
        (JsonValue::Object(stated), JsonValue::Object(known)) => unknown_members(
            stated,
            known,
            path,
        ),
        _ => Seq::empty(),
    }
}

/// The same, member by member.
pub open spec fn unknown_members(
    stated: Seq<(Seq<char>, JsonValue)>,
    known: Seq<(Seq<char>, JsonValue)>,
    path: Seq<char>,
) -> Seq<Seq<char>>
    decreases stated,
{
    if stated.len() == 0 {
        Seq::empty()
    } else {
        let (key, value) = stated.last();
        unknown_members(stated.drop_last(), known, path) + (if value == JsonValue::Null {
            Seq::empty()
        } else {
            match json::member(known, canonical_name(key)) {
                Some(inner) => unknown_keys(value, inner, dotted(path, key)),
                None => seq![dotted(path, key)],
            }
        })
    }
}

/// Walk `raw`, recording every key that is not `null` and has no counterpart in `parsed`.
fn collect_unknown_keys(raw: &Json, parsed: &Json, path: &str, unknown: &mut Vec<String>)
    ensures
        text::texts(final(unknown)@) == text::texts(old(unknown)@) + unknown_keys(
            raw@,
            parsed@,
            path@,
        ),
    decreases raw,
{
    let ghost was = text::texts(unknown@);
    let members = match (raw, parsed) {
        (Json::Object(members), Json::Object(_)) => members,
        _ => {
            assert(text::texts(unknown@) =~= was + unknown_keys(raw@, parsed@, path@));
            return;
        },
    };
    let ghost known = parsed@->Object_0;
    proof {
        json::lemma_members_at(members@);
    }
    let ghost stated = json::members_view(members@);
    let mut i: usize = 0;
    assert(stated.take(0) =~= Seq::empty());
    assert(text::texts(unknown@) =~= was + unknown_members(stated.take(0), known, path@));
    while i < members.len()
        invariant
            i <= members.len(),
            *raw == Json::Object(*members),
            parsed@ == JsonValue::Object(known),
            stated == json::members_view(members@),
            stated.len() == members@.len(),
            forall|k: int|
                0 <= k < members@.len() ==> #[trigger] stated[k] == (
                    members@[k].0@,
                    members@[k].1@,
                ),
            text::texts(unknown@) == was + unknown_members(stated.take(i as int), known, path@),
        decreases members.len() - i,
    {
        let ghost before = text::texts(unknown@);
        let ghost longer = stated.take(i + 1);
        assert(longer.drop_last() =~= stated.take(i as int));
        assert(longer.last() == stated[i as int]);
        let key = members[i].0.as_str();
        let value = &members[i].1;
        let null = match value {
            Json::Null => true,
            _ => false,
        };
        if null {
            assert(unknown_members(longer, known, path@) =~= unknown_members(
                stated.take(i as int),
                known,
                path@,
            ));
        } else {
            let here = if path.unicode_len() == 0 {
                key.to_owned()
            } else {
                let mut here = path.to_owned();
                here.append(".");
                here.append(key);
                here
            };
            let ghost place = here@;
            assert(place == dotted(path@, key@));
            match parsed.get(canonical_key(key)) {
                Some(inner) => {
                    assert(decreases_to!(raw => raw->Object_0));
                    assert(decreases_to!(members => members@));
                    assert(decreases_to!(members@ => members@[i as int]));
                    assert(decreases_to!(members@[i as int] => members@[i as int].1));
                    collect_unknown_keys(value, inner, here.as_str(), unknown);
                    assert(text::texts(unknown@) =~= was + unknown_members(longer, known, path@));
                },
                None => {
                    unknown.push(here);
                    assert(text::texts(unknown@) =~= before.push(place));
                    assert(text::texts(unknown@) =~= was + unknown_members(longer, known, path@));
                },
            }
        }
        i = i + 1;
    }
    assert(stated.take(stated.len() as int) =~= stated);
}

/// What is said of a key that the parser dropped.
pub open spec fn indented(lines: Seq<Seq<char>>) -> Seq<Seq<char>> {
    Seq::new(lines.len(), |i: int| "  "@ + lines[i])
}

/// Reject keys that the parser silently dropped, almost always typos.
///
/// `round_tripped` is the parsed config written back: every key that the document states must
/// have survived.
pub fn check_no_unknown_fields(raw: &Json, round_tripped: &Json) -> (checked: Result<
    (),
    UnknownFields,
>)
    ensures
        match checked {
            Ok(()) => unknown_keys(raw@, round_tripped@, Seq::empty()).len() == 0,
            Err(err) => {
                &&& unknown_keys(raw@, round_tripped@, Seq::empty()).len() > 0
                &&& text::texts(err.lines@) == indented(
                    unknown_keys(raw@, round_tripped@, Seq::empty()),
                )
            },
        },
{
    let mut unknown: Vec<String> = Vec::new();
    let top = String::new();
    collect_unknown_keys(raw, round_tripped, top.as_str(), &mut unknown);
    assert(top@ =~= Seq::<char>::empty());
    assert(text::texts(unknown@) =~= unknown_keys(raw@, round_tripped@, Seq::empty()));
    if unknown.len() == 0 {
        return Ok(());
    }
    let mut lines: Vec<String> = Vec::new();
    let mut i: usize = 0;
    while i < unknown.len()
        invariant
            i <= unknown.len(),
            lines@.len() == i,
            forall|k: int| 0 <= k < i ==> (#[trigger] lines@[k])@ == "  "@ + unknown@[k]@,
        decreases unknown.len() - i,
    {
        let mut line = "  ".to_owned();
        line.append(unknown[i].as_str());
        lines.push(line);
        i = i + 1;
    }
    assert(text::texts(lines@) =~= indented(text::texts(unknown@)));
    Err(UnknownFields { lines })
}

/// Bytes that one element of a dense vector takes in storage.
pub open spec fn element_bytes(datatype: Option<VectorStorageDatatype>) -> nat {
    match datatype {
        Some(VectorStorageDatatype::Float16) => 2,
        Some(VectorStorageDatatype::Uint8) => 1,
        Some(VectorStorageDatatype::Turbo4) => 1,
        Some(VectorStorageDatatype::Float32) => 4,
        None => 4,
    }
}

/// Bytes that one element of a dense vector takes in storage.
pub(crate) fn storage_element_bytes(datatype: Option<VectorStorageDatatype>) -> (bytes: u64)
    ensures
        bytes == element_bytes(datatype),
        1 <= bytes <= 4,
{
    match datatype {
        Some(VectorStorageDatatype::Float16) => 2,
        Some(VectorStorageDatatype::Uint8) => 1,
        Some(VectorStorageDatatype::Turbo4) => 1,
        Some(VectorStorageDatatype::Float32) => 4,
        None => 4,
    }
}

/// Bytes of one dense vector.
pub open spec fn vector_bytes(params: VectorParams) -> nat {
    element_bytes(params.datatype) * params.size as nat
}

/// Bytes of as many dense vectors as one segment can address.
pub open spec fn addressable_bytes(params: VectorParams) -> nat {
    vector_bytes(params) * u32::MAX as nat
}

/// What is said of a segment size limit that no segment of such vectors can reach.
pub open spec fn limit_line(kb: u64, name: Seq<char>, params: VectorParams) -> Seq<char> {
    "  optimizer_config.max_segment_size ("@
        + text::decimal_text(kb as nat)
        + " KB) exceeds what one segment can address for vector '"@
        + name
        + "': "@
        + text::decimal_text(u32::MAX as nat)
        + " points max at "@
        + text::decimal_text(vector_bytes(params))
        + " bytes/vector = "@
        + text::decimal_text(addressable_bytes(params) / 1024)
        + " KB"@
}

/// What is said of the vectors of a config.
pub open spec fn limit_lines(kb: u64, vectors: Seq<(Seq<char>, VectorParams)>) -> Seq<Seq<char>>
    decreases vectors.len(),
{
    if vectors.len() == 0 {
        Seq::empty()
    } else {
        let (name, params) = vectors.last();
        let front = limit_lines(kb, vectors.drop_last());
        if kb * 1024 > addressable_bytes(params) {
            front.push(limit_line(kb, name, params))
        } else {
            front
        }
    }
}

/// The most shards that a builder can later merge over.
pub const MAX_SHARDS: u32 = 16_777_215;

/// What is said of the number of shards.
pub open spec fn shard_lines(shard_number: u32) -> Seq<Seq<char>> {
    if shard_number > MAX_SHARDS {
        seq![
            "  params.shard_number ("@ + text::decimal_text(shard_number as nat)
                + ") exceeds U24::MAX ("@ + text::decimal_text(MAX_SHARDS as nat) + ")"@,
        ]
    } else {
        Seq::empty()
    }
}

/// What makes a config structurally impossible, as opposed to merely unwise.
pub open spec fn impossible_lines(config: CollectionConfig) -> Seq<Seq<char>> {
    (match config.max_segment_size {
        Some(kb) => limit_lines(kb, config.vectors@),
        None => Seq::empty(),
    }) + shard_lines(config.shard_number)
}

fn write_limit(kb: u64, name: &str, params: VectorParams, vector: u128, cap: u128) -> (line: String)
    requires
        vector == vector_bytes(params),
        cap == addressable_bytes(params),
    ensures
        line@ == limit_line(kb, name@, params),
{
    let mut line = "  optimizer_config.max_segment_size (".to_owned();
    line.append(text::decimal(kb as u128).as_str());
    line.append(" KB) exceeds what one segment can address for vector '");
    line.append(name);
    line.append("': ");
    line.append(text::decimal(u32::MAX as u128).as_str());
    line.append(" points max at ");
    line.append(text::decimal(vector).as_str());
    line.append(" bytes/vector = ");
    line.append(text::decimal(cap / 1024).as_str());
    line.append(" KB");
    line
}

fn push_limits(kb: u64, vectors: &NameMap<VectorParams>, lines: &mut Vec<String>)
    ensures
        text::texts(final(lines)@) == text::texts(old(lines)@) + limit_lines(kb, vectors@),
{
    let ghost was = text::texts(lines@);
    let count: usize = vectors.len();
    let mut i: usize = 0;
    assert(vectors@.take(0) =~= Seq::empty());
    assert(text::texts(lines@) =~= was + limit_lines(kb, vectors@.take(0)));
    while i < count
        invariant
            i <= count,
            count == vectors@.len(),
            text::texts(lines@) == was + limit_lines(kb, vectors@.take(i as int)),
        decreases count - i,
    {
        let ghost longer = vectors@.take(i + 1);
        assert(longer.drop_last() =~= vectors@.take(i as int));
        assert(longer.last() == vectors@[i as int]);
        let params: VectorParams = *vectors.value_at(i);
        let element: u64 = storage_element_bytes(params.datatype);
        assert(element * params.size <= 4 * u64::MAX) by (nonlinear_arith)
            requires
                element <= 4,
                params.size <= u64::MAX,
        ;
        let vector: u128 = element as u128 * params.size as u128;
        let cap: u128 = vector * (u32::MAX as u128);
        if kb as u128 * 1024 > cap {
            let ghost before = text::texts(lines@);
            lines.push(write_limit(kb, vectors.name_at(i).as_str(), params, vector, cap));
            assert(text::texts(lines@) =~= before.push(
                limit_line(kb, vectors@[i as int].0, params),
            ));
            assert(text::texts(lines@) =~= was + limit_lines(kb, longer));
        }
        i = i + 1;
    }
    assert(vectors@.take(vectors@.len() as int) =~= vectors@);
}

/// Reject configs that are structurally impossible, as opposed to merely unwise.
///
/// A segment addresses points by 32 bits, so no segment can hold more, whatever the size limit
/// says; and the number of shards is bounded by what can later be merged.
pub fn check_hard_limits(config: &CollectionConfig) -> (checked: Result<(), HardLimits>)
    ensures
        match checked {
            Ok(()) => impossible_lines(*config).len() == 0,
            Err(err) => {
                &&& impossible_lines(*config).len() > 0
                &&& text::texts(err.lines@) == impossible_lines(*config)
            },
        },
{
    let mut lines: Vec<String> = Vec::new();
    assert(text::texts(lines@) =~= Seq::empty());
    if let Some(kb) = config.max_segment_size {
        push_limits(kb, &config.vectors, &mut lines);
    }
    let ghost sized = text::texts(lines@);
    assert(sized =~= (match config.max_segment_size {
        Some(kb) => limit_lines(kb, config.vectors@),
        None => Seq::empty(),
    }));
    if config.shard_number > MAX_SHARDS {
        let mut line = "  params.shard_number (".to_owned();
        line.append(text::decimal(config.shard_number as u128).as_str());
        line.append(") exceeds U24::MAX (");
        line.append(text::decimal(MAX_SHARDS as u128).as_str());
        line.append(")");
        lines.push(line);
    }
    assert(text::texts(lines@) =~= impossible_lines(*config));
    if lines.len() > 0 {
        return Err(HardLimits { lines });
    }
    Ok(())
}

/// What the collection's own parser and validator made of a document.
pub enum ParseOutcome {
    /// It does not parse.
    Unreadable(String),
    /// It parses, and violates the declared constraints.
    Invalid(String),
    /// It parses and is valid; written back, it reads `round_tripped`.
    Parsed { config: CollectionConfig, round_tripped: Json },
}

/// Why a config document is refused.
pub enum ConfigFault {
    NotJson(String),
    Missing(MissingFields),
    Unreadable(String),
    Invalid(String),
    Impossible(HardLimits),
    Unknown(UnknownFields),
}

impl ConfigFault {
    pub open spec fn text(self) -> Seq<char> {
        match self {
            ConfigFault::NotJson(why) => "config is not valid JSON: "@ + why@,
            ConfigFault::Missing(fault) => fault.text(),
            ConfigFault::Unreadable(why) => "config does not match Qdrant's collection config: "@
                + why@,
            ConfigFault::Invalid(why) => "config violates Qdrant's own validation rules:\n"@ + why@,
            ConfigFault::Impossible(fault) => fault.text(),
            ConfigFault::Unknown(fault) => fault.text(),
        }
    }

    /// The message for the operator.
    pub fn message(&self) -> (message: String)
        ensures
            message@ == self.text(),
    {
        match self {
            ConfigFault::NotJson(why) => text::cat2("config is not valid JSON: ", why.as_str()),
            ConfigFault::Missing(fault) => fault.message(),
            ConfigFault::Unreadable(why) => {
                let mut message = "config does not match Qdrant's collection config: ".to_owned();
                message.append(why.as_str());
                message
            },
            ConfigFault::Invalid(why) => {
                let mut message = "config violates Qdrant's own validation rules:\n".to_owned();
                message.append(why.as_str());
                message
            },
            ConfigFault::Impossible(fault) => fault.message(),
            ConfigFault::Unknown(fault) => fault.message(),
        }
    }
}

/// Whether that is what becomes of a collection section: the first gate that it does not pass, or
/// its config with both fingerprints.
pub open spec fn loads(
    raw: JsonValue,
    parsed: ParseOutcome,
    loaded: Result<LoadedConfig, ConfigFault>,
) -> bool {
    match loaded {
        Ok(l) => {
            &&& missing_lines(raw, required_fields()).len() == 0
            &&& match parsed {
                ParseOutcome::Parsed { config, round_tripped } => {
                    &&& impossible_lines(config).len() == 0
                    &&& unknown_keys(raw, round_tripped@, Seq::empty()).len() == 0
                    &&& l.config == config
                    &&& l.fingerprint@ == config::fingerprint_of(
                        config::full_surface(config, None),
                    )
                    &&& l.part_fingerprint@ == config::fingerprint_of(
                        config::part_surface(config::routing_of(config, None)),
                    )
                },
                _ => false,
            }
        },
        Err(ConfigFault::NotJson(_)) => false,
        Err(ConfigFault::Missing(err)) => {
            &&& missing_lines(raw, required_fields()).len() > 0
            &&& text::texts(err.lines@) == missing_lines(raw, required_fields())
        },
        Err(ConfigFault::Unreadable(why)) => {
            &&& missing_lines(raw, required_fields()).len() == 0
            &&& parsed == ParseOutcome::Unreadable(why)
        },
        Err(ConfigFault::Invalid(why)) => {
            &&& missing_lines(raw, required_fields()).len() == 0
            &&& parsed == ParseOutcome::Invalid(why)
        },
        Err(ConfigFault::Impossible(err)) => {
            &&& missing_lines(raw, required_fields()).len() == 0
            &&& match parsed {
                ParseOutcome::Parsed { config, round_tripped } => {
                    &&& impossible_lines(config).len() > 0
                    &&& text::texts(err.lines@) == impossible_lines(config)
                },
                _ => false,
            }
        },
        Err(ConfigFault::Unknown(err)) => {
            &&& missing_lines(raw, required_fields()).len() == 0
            &&& match parsed {
                ParseOutcome::Parsed { config, round_tripped } => {
                    &&& impossible_lines(config).len() == 0
                    &&& unknown_keys(raw, round_tripped@, Seq::empty()).len() > 0
                    &&& text::texts(err.lines@) == indented(
                        unknown_keys(raw, round_tripped@, Seq::empty()),
                    )
                },
                _ => false,
            }
        },
    }
}

/// Load and validate a collection section.
///
/// Four gates, in order, each of which rejects a config that the next could not diagnose: explicit
/// fields, the collection's own parser and validator, structural limits, and keys that the parser
/// dropped. Neither the mapping nor the payload indexes are in scope, so both fingerprints are
/// taken without them.
pub fn from_value(raw: &Json, parsed: ParseOutcome) -> (loaded: Result<LoadedConfig, ConfigFault>)
    ensures
        loads(raw@, parsed, loaded),
{
    match require_explicit_fields(raw) {
        Ok(()) => {},
        Err(err) => {
            return Err(ConfigFault::Missing(err));
        },
    }
    let (config, round_tripped) = match parsed {
        ParseOutcome::Unreadable(why) => {
            return Err(ConfigFault::Unreadable(why));
        },
        ParseOutcome::Invalid(why) => {
            return Err(ConfigFault::Invalid(why));
        },
        ParseOutcome::Parsed { config, round_tripped } => (config, round_tripped),
    };
    match check_hard_limits(&config) {
        Ok(()) => {},
        Err(err) => {
            return Err(ConfigFault::Impossible(err));
        },
    }
    match check_no_unknown_fields(raw, &round_tripped) {
        Ok(()) => {},
        Err(err) => {
            return Err(ConfigFault::Unknown(err));
        },
    }
    let fingerprint = config::fingerprint_alone(&config);
    let part_fingerprint = config::part_fingerprint(&config, None);
    Ok(LoadedConfig { config, fingerprint, part_fingerprint })
}

/// Load and validate a bare collection config from a text. `parsed` is what the collection's own
/// parser and validator make of it.
pub fn from_str(s: &str, parsed: ParseOutcome) -> (loaded: Result<LoadedConfig, ConfigFault>)
    ensures
        match json::json_in(s@) {
            Ok(raw) => loads(raw, parsed, loaded),
            Err(why) => match loaded {
                Err(ConfigFault::NotJson(message)) => message@ == why,
                _ => false,
            },
        },
{
    match json::parse(s) {
        Ok(raw) => from_value(&raw, parsed),
        Err(why) => Err(ConfigFault::NotJson(why)),
    }
}

/// A document without an unknown key is told apart from one with a misspelled key: of a stated key
/// that is not `null` and has no counterpart, the path is reported.
pub proof fn unknown_key_is_reported(
    stated: Seq<(Seq<char>, JsonValue)>,
    known: Seq<(Seq<char>, JsonValue)>,
    path: Seq<char>,
    i: int,
)
    requires
        0 <= i < stated.len(),
        stated[i].1 != JsonValue::Null,
        json::member(known, canonical_name(stated[i].0)) is None,
    ensures
        unknown_members(stated, known, path).contains(dotted(path, stated[i].0)),
    decreases stated.len(),
{
    let (key, value) = stated.last();
    let front = unknown_members(stated.drop_last(), known, path);
    if i < stated.len() - 1 {
        assert(stated.drop_last()[i] == stated[i]);
        unknown_key_is_reported(stated.drop_last(), known, path, i);
        let k = choose|k: int| 0 <= k < front.len() && front[k] == dotted(path, stated[i].0);
        assert(unknown_members(stated, known, path)[k] == front[k]);
    } else {
        assert(unknown_members(stated, known, path)[front.len() as int] == dotted(
            path,
            stated[i].0,
        ));
    }
}

proof fn lemma_missing_path(raw: JsonValue, field: Required, paths: Seq<Seq<char>>, j: int)
    requires
        0 <= j < paths.len(),
        !is_stated(raw, field, paths[j]),
    ensures
        missing_paths(raw, field, paths).contains(missing_line(field, paths[j])),
    decreases paths.len(),
{
    let front = missing_paths(raw, field, paths.drop_last());
    if j < paths.len() - 1 {
        assert(paths.drop_last()[j] == paths[j]);
        lemma_missing_path(raw, field, paths.drop_last(), j);
        let k = choose|k: int| 0 <= k < front.len() && front[k] == missing_line(field, paths[j]);
        assert(missing_paths(raw, field, paths)[k] == front[k]);
    } else {
        assert(missing_paths(raw, field, paths)[front.len() as int] == missing_line(
            field,
            paths[j],
        ));
    }
}

/// Every required field that a document does not state, for every vector that it configures, is
/// reported by its path.
pub proof fn missing_field_is_reported(raw: JsonValue, fields: Seq<Required>, i: int, j: int)
    requires
        0 <= i < fields.len(),
        0 <= j < expanded(raw, fields[i].path@).len(),
        !is_stated(raw, fields[i], expanded(raw, fields[i].path@)[j]),
    ensures
        missing_lines(raw, fields).contains(
            missing_line(fields[i], expanded(raw, fields[i].path@)[j]),
        ),
    decreases fields.len(),
{
    let line = missing_line(fields[i], expanded(raw, fields[i].path@)[j]);
    let front = missing_lines(raw, fields.drop_last());
    let last = fields.last();
    let tail = missing_paths(raw, last, expanded(raw, last.path@));
    if i < fields.len() - 1 {
        assert(fields.drop_last()[i] == fields[i]);
        missing_field_is_reported(raw, fields.drop_last(), i, j);
        let k = choose|k: int| 0 <= k < front.len() && front[k] == line;
        assert(missing_lines(raw, fields)[k] == line);
    } else {
        lemma_missing_path(raw, last, expanded(raw, last.path@), j);
        let k = choose|k: int| 0 <= k < tail.len() && tail[k] == line;
        assert(missing_lines(raw, fields)[front.len() + k] == line);
    }
}

/// A key that holds `null` is never reported as unknown: it means the same as leaving it out.
pub proof fn null_keys_are_tolerated(
    stated: Seq<(Seq<char>, JsonValue)>,
    known: Seq<(Seq<char>, JsonValue)>,
    path: Seq<char>,
    key: Seq<char>,
)
    ensures
        unknown_members(stated.push((key, JsonValue::Null)), known, path) == unknown_members(
            stated,
            known,
            path,
        ),
{
    let longer = stated.push((key, JsonValue::Null));
    assert(longer.drop_last() =~= stated);
    assert(unknown_members(longer, known, path) =~= unknown_members(stated, known, path));
}

/// Whether a document states a value at every path that a pattern stands for.
pub open spec fn says(raw: JsonValue, pattern: Seq<char>, alias: Option<Seq<char>>) -> bool {
    forall|j: int|
        0 <= j < expanded(raw, pattern).len() ==> looked_up(
            raw,
            #[trigger] expanded(raw, pattern)[j],
            alias,
        ) is Some
}

/// Whether a document states a value other than one at every path that a pattern stands for.
pub open spec fn says_other_than(
    raw: JsonValue,
    pattern: Seq<char>,
    alias: Option<Seq<char>>,
    value: JsonValue,
) -> bool {
    forall|j: int|
        0 <= j < expanded(raw, pattern).len() ==> (looked_up(
            raw,
            #[trigger] expanded(raw, pattern)[j],
            alias,
        ) matches Some(stated) && stated != value)
}

/// A document that passes the first gate leaves nothing to a default that is frozen into the artifact
/// or derived from the build host. It states the routing, with numbers that are not zero; the segment
/// size limit and the indexing threshold; the parameters of the graph; the quantization; and of every
/// vector, dense or sparse, what decides its storage. A field that must say more than `null` does.
pub proof fn nothing_frozen_is_left_to_a_default(raw: JsonValue)
    requires
        missing_lines(raw, required_fields()).len() == 0,
    ensures
        says_other_than(raw, "params.shard_number"@, None, JsonValue::Unsigned(0)),
        says_other_than(raw, "params.sharding_method"@, None, JsonValue::Null),
        says_other_than(raw, "params.hash_ring_shard_scale"@, None, JsonValue::Unsigned(0)),
        says_other_than(
            raw,
            "optimizer_config.max_segment_size"@,
            Some("max_segment_size_kb"@),
            JsonValue::Null,
        ),
        says_other_than(
            raw,
            "optimizer_config.indexing_threshold"@,
            Some("indexing_threshold_kb"@),
            JsonValue::Null,
        ),
        says_other_than(raw, "hnsw_config.m"@, None, JsonValue::Null),
        says_other_than(raw, "hnsw_config.ef_construct"@, None, JsonValue::Null),
        says_other_than(
            raw,
            "hnsw_config.full_scan_threshold"@,
            Some("full_scan_threshold_kb"@),
            JsonValue::Null,
        ),
        says(raw, "hnsw_config.payload_m"@, None),
        says(raw, "hnsw_config.inline_storage"@, None),
        says(raw, "quantization_config"@, None),
        says_other_than(raw, "params.sparse_vectors.*.index"@, None, JsonValue::Null),
        says_other_than(
            raw,
            "params.sparse_vectors.*.index.memory"@,
            Some("on_disk"@),
            JsonValue::Null,
        ),
        says(raw, "params.sparse_vectors.*.index.wand_pruning"@, None),
        says_other_than(raw, "params.vectors.*.size"@, None, JsonValue::Null),
        says_other_than(raw, "params.vectors.*.distance"@, None, JsonValue::Null),
        says(raw, "params.vectors.*.datatype"@, None),
        says(raw, "params.vectors.*.multivector_config"@, None),
{
    let fields = required_fields();
    assert forall|i: int, j: int|
        0 <= i < fields.len() && 0 <= j < expanded(
            raw,
            (#[trigger] fields[i]).path@,
        ).len() implies is_stated(
        raw,
        fields[i],
        #[trigger] expanded(raw, fields[i].path@)[j],
    ) by {
        if !is_stated(raw, fields[i], expanded(raw, fields[i].path@)[j]) {
            missing_field_is_reported(raw, fields, i, j);
        }
    }
    assert(fields[0].path@ == "params.shard_number"@);
    assert(fields[1].path@ == "params.sharding_method"@);
    assert(fields[2].path@ == "params.hash_ring_shard_scale"@);
    assert(fields[3].path@ == "optimizer_config.max_segment_size"@);
    assert(fields[4].path@ == "hnsw_config.m"@);
    assert(fields[5].path@ == "hnsw_config.ef_construct"@);
    assert(fields[6].path@ == "hnsw_config.full_scan_threshold"@);
    assert(fields[7].path@ == "hnsw_config.payload_m"@);
    assert(fields[8].path@ == "hnsw_config.inline_storage"@);
    assert(fields[9].path@ == "quantization_config"@);
    assert(fields[10].path@ == "optimizer_config.indexing_threshold"@);
    assert(fields[11].path@ == "params.sparse_vectors.*.index"@);
    assert(fields[12].path@ == "params.sparse_vectors.*.index.memory"@);
    assert(fields[13].path@ == "params.sparse_vectors.*.index.wand_pruning"@);
    assert(fields[14].path@ == "params.vectors.*.size"@);
    assert(fields[15].path@ == "params.vectors.*.datatype"@);
    assert(fields[16].path@ == "params.vectors.*.multivector_config"@);
    assert(fields[17].path@ == "params.vectors.*.distance"@);
}

/// A pattern with a star stands for one path for every vector of its table, under the vector's name;
/// for the single unnamed vector it stands for the path without a name.
pub proof fn a_star_stands_for_every_vector(raw: JsonValue, suffix: Seq<char>, i: int)
    requires
        0 <= i,
    ensures
        (json::get_member(raw, "params"@) matches Some(params) && (json::get_member(
            params,
            "sparse_vectors"@,
        ) matches Some(JsonValue::Object(members)) && i < members.len())) ==> {
            let members = json::get_member(
                json::get_member(raw, "params"@)->0,
                "sparse_vectors"@,
            )->0->Object_0;
            let paths = expanded(raw, "params.sparse_vectors.*."@ + suffix);
            &&& paths.len() == members.len()
            &&& paths[i] == "params.sparse_vectors."@ + members[i].0 + "."@ + suffix
        },
        (json::get_member(raw, "params"@) matches Some(params) && (json::get_member(
            params,
            "vectors"@,
        ) matches Some(JsonValue::Object(members)) && i < members.len() && json::member(
            members,
            "size"@,
        ) is None)) ==> {
            let members = json::get_member(
                json::get_member(raw, "params"@)->0,
                "vectors"@,
            )->0->Object_0;
            let paths = expanded(raw, "params.vectors.*."@ + suffix);
            &&& paths.len() == members.len()
            &&& paths[i] == "params.vectors."@ + members[i].0 + "."@ + suffix
        },
        (json::get_member(raw, "params"@) matches Some(params) && (json::get_member(
            params,
            "vectors"@,
        ) matches Some(JsonValue::Object(members)) && json::member(members, "size"@) is Some))
            ==> expanded(raw, "params.vectors.*."@ + suffix) == seq!["params.vectors."@ + suffix],
{
    reveal_strlit("params.sparse_vectors.*.");
    reveal_strlit("params.vectors.*.");
    let sparse = "params.sparse_vectors.*."@;
    let dense = "params.vectors.*."@;
    assert((sparse + suffix).take(sparse.len() as int) =~= sparse);
    assert((sparse + suffix).skip(sparse.len() as int) =~= suffix);
    assert((dense + suffix).take(dense.len() as int) =~= dense);
    assert((dense + suffix).skip(dense.len() as int) =~= suffix);
    assert((dense + suffix)[7] == 'v');
    assert(sparse[7] == 's');
    if text::begins(dense + suffix, sparse) {
        assert((dense + suffix).take(sparse.len() as int)[7] == 'v');
    }
    lemma_two_names(raw, "params"@, "sparse_vectors"@);
    lemma_two_names(raw, "params"@, "vectors"@);
}

/// A path of two names leads to a member of a member.
proof fn lemma_two_names(raw: JsonValue, first: Seq<char>, second: Seq<char>)
    ensures
        walk(raw, seq![first, second]) == (match json::get_member(raw, first) {
            Some(node) => json::get_member(node, second),
            None => None,
        }),
{
    let names = seq![first, second];
    let one = names.skip(1);
    assert(one =~= seq![second]);
    match json::get_member(raw, first) {
        Some(node) => {
            assert(walk(raw, names) == walk(node, one));
            match json::get_member(node, second) {
                Some(value) => {
                    assert(one.skip(1).len() == 0);
                    assert(walk(value, one.skip(1)) == Some(value));
                },
                None => {},
            }
        },
        None => {},
    }
}

/// A dotted path leads from name to name: what stands before the first dot is a member's name, and the
/// rest is looked up below it. A path without a dot is a member's name itself, or its other spelling
/// where there is no member of the first.
pub proof fn a_dotted_path_leads_from_name_to_name(
    raw: JsonValue,
    name: Seq<char>,
    rest: Seq<char>,
    alias: Option<Seq<char>>,
)
    requires
        forall|i: int| 0 <= i < name.len() ==> #[trigger] name[i] != '.',
    ensures
        looked_up(raw, name + "."@ + rest, alias) == (match json::get_member(raw, name) {
            Some(node) => looked_up(node, rest, alias),
            None => None,
        }),
        looked_up(raw, name, alias) == (match (json::get_member(raw, name), alias) {
            (Some(value), _) => Some(value),
            (None, Some(other)) => json::get_member(raw, other),
            (None, None) => None,
        }),
{
    reveal_strlit(".");
    let path = name + "."@ + rest;
    lemma_position(name, "."@ + rest);
    assert(name + ("."@ + rest) =~= path);
    assert(path.take(name.len() as int) =~= name);
    assert(path.skip(name.len() as int + 1) =~= rest);
    let names = split_dots(rest);
    lemma_split_dots(rest);
    let all = split_dots(path);
    assert(all =~= seq![name] + names);
    assert(all.drop_last() =~= seq![name] + names.drop_last());
    assert(all.last() == names.last());
    assert(all.drop_last()[0] == name);
    assert(all.drop_last().skip(1) =~= names.drop_last());
    lemma_position(name, Seq::empty());
    assert(name + Seq::<char>::empty() =~= name);
    assert(split_dots(name) =~= seq![name]);
    assert(split_dots(name).drop_last().len() == 0);
    assert(walk(raw, split_dots(name).drop_last()) == Some(raw));
}

/// The first dot behind a name without one.
proof fn lemma_position(name: Seq<char>, rest: Seq<char>)
    requires
        forall|i: int| 0 <= i < name.len() ==> #[trigger] name[i] != '.',
        rest.len() == 0 || rest[0] == '.',
    ensures
        cli::position_of(name + rest, '.') == name.len(),
    decreases name.len(),
{
    let path = name + rest;
    if name.len() == 0 {
        assert(path =~= rest);
    } else {
        assert(path[0] == name[0]);
        assert forall|i: int| 0 <= i < name.skip(1).len() implies #[trigger] name.skip(1)[i]
            != '.' by {
            assert(name.skip(1)[i] == name[i + 1]);
        }
        lemma_position(name.skip(1), rest);
        assert(path.skip(1) =~= name.skip(1) + rest);
    }
}

/// A document has no unknown key exactly where each of its keys holds `null`, or has a counterpart
/// below which it has no unknown key either.
pub proof fn only_keys_with_a_counterpart_pass(
    stated: Seq<(Seq<char>, JsonValue)>,
    known: Seq<(Seq<char>, JsonValue)>,
    path: Seq<char>,
)
    ensures
        unknown_keys(JsonValue::Object(stated), JsonValue::Object(known), path).len() == 0 <==> (
        forall|i: int|
            0 <= i < stated.len() ==> (#[trigger] stated[i]).1 == JsonValue::Null || (json::member(
                known,
                canonical_name(stated[i].0),
            ) matches Some(inner) && unknown_keys(
                stated[i].1,
                inner,
                dotted(path, stated[i].0),
            ).len() == 0)),
    decreases stated.len(),
{
    if stated.len() > 0 {
        let rest = stated.drop_last();
        only_keys_with_a_counterpart_pass(rest, known, path);
        assert(unknown_keys(JsonValue::Object(rest), JsonValue::Object(known), path)
            == unknown_members(rest, known, path));
        assert(unknown_keys(JsonValue::Object(stated), JsonValue::Object(known), path)
            == unknown_members(stated, known, path));
        assert(stated[stated.len() - 1] == stated.last());
        assert forall|i: int| 0 <= i < rest.len() implies #[trigger] rest[i] == stated[i] by {}
        if unknown_members(stated, known, path).len() == 0 {
            assert forall|i: int| 0 <= i < stated.len() implies (#[trigger] stated[i]).1
                == JsonValue::Null || (json::member(
                known,
                canonical_name(stated[i].0),
            ) matches Some(inner) && unknown_keys(
                stated[i].1,
                inner,
                dotted(path, stated[i].0),
            ).len() == 0) by {
                if i < rest.len() {
                    assert(rest[i] == stated[i]);
                }
            }
        }
    }
}

/// A config is possible exactly where it has no more shards than three bytes count, and the points
/// that four bytes number can fill a segment of each of its dense vectors to the size limit.
pub proof fn only_reachable_limits_are_possible(config: CollectionConfig)
    ensures
        impossible_lines(config).len() == 0 <==> {
            &&& config.shard_number < 256 * 256 * 256
            &&& config.max_segment_size matches Some(kb) ==> forall|i: int|
                0 <= i < config.vectors@.len() ==> kb * 1024 <= bytes_of_all(
                    (#[trigger] config.vectors@[i]).1,
                )
        },
{
    match config.max_segment_size {
        Some(kb) => lemma_limit_lines(kb, config.vectors@),
        None => {},
    }
}

/// Bytes of 4,294,967,295 dense vectors.
pub open spec fn bytes_of_all(params: VectorParams) -> int {
    4_294_967_295 * (params.size * (match params.datatype {
        Some(VectorStorageDatatype::Float16) => 2int,
        Some(VectorStorageDatatype::Uint8) | Some(VectorStorageDatatype::Turbo4) => 1int,
        Some(VectorStorageDatatype::Float32) | None => 4int,
    }))
}

proof fn lemma_bytes_of_all(params: VectorParams)
    ensures
        addressable_bytes(params) == bytes_of_all(params),
{
    let width = element_bytes(params.datatype);
    assert(width * params.size as nat == params.size * width) by (nonlinear_arith);
}

proof fn lemma_limit_lines(kb: u64, vectors: Seq<(Seq<char>, VectorParams)>)
    ensures
        limit_lines(kb, vectors).len() == 0 <==> forall|i: int|
            0 <= i < vectors.len() ==> kb * 1024 <= bytes_of_all((#[trigger] vectors[i]).1),
    decreases vectors.len(),
{
    if vectors.len() > 0 {
        let rest = vectors.drop_last();
        lemma_limit_lines(kb, rest);
        lemma_bytes_of_all(vectors.last().1);
        assert(vectors[vectors.len() - 1] == vectors.last());
        assert forall|i: int| 0 <= i < rest.len() implies #[trigger] rest[i] == vectors[i] by {}
        if limit_lines(kb, vectors).len() == 0 {
            assert forall|i: int| 0 <= i < vectors.len() implies kb * 1024 <= bytes_of_all(
                (#[trigger] vectors[i]).1,
            ) by {
                if i < rest.len() {
                    assert(rest[i] == vectors[i]);
                }
            }
        }
    }
}

/// A collection section loads exactly where it passes every gate: nothing is left to a default, it
/// parses and is valid, its limits can be reached, and no key of it was dropped. What is loaded is
/// what was parsed, under its two fingerprints. Which gate refuses it is the first that it does not
/// pass.
pub proof fn a_section_loads_where_it_passes_every_gate(
    raw: JsonValue,
    parsed: ParseOutcome,
    loaded: Result<LoadedConfig, ConfigFault>,
)
    requires
        loads(raw, parsed, loaded),
    ensures
        ({
            let explicit = missing_lines(raw, required_fields()).len() == 0;
            let possible = parsed matches ParseOutcome::Parsed { config, .. } && impossible_lines(
                config,
            ).len() == 0;
            let kept = parsed matches ParseOutcome::Parsed { round_tripped, .. } && unknown_keys(
                raw,
                round_tripped@,
                Seq::empty(),
            ).len() == 0;
            &&& loaded is Ok <==> explicit && possible && kept
            &&& loaded matches Ok(l) ==> (parsed matches ParseOutcome::Parsed { config, .. }
                && l.config == config && l.fingerprint@ == config::fingerprint_of(
                config::full_surface(config, None),
            ) && l.part_fingerprint@ == config::fingerprint_of(
                config::part_surface(config::routing_of(config, None)),
            ))
            &&& !explicit <==> (loaded is Err && loaded->Err_0 is Missing)
            &&& explicit && parsed is Unreadable <==> (loaded is Err
                && loaded->Err_0 is Unreadable)
            &&& explicit && parsed is Invalid <==> (loaded is Err && loaded->Err_0 is Invalid)
            &&& explicit && parsed is Parsed && !possible <==> (loaded is Err
                && loaded->Err_0 is Impossible)
            &&& explicit && possible && !kept <==> (loaded is Err && loaded->Err_0 is Unknown)
        }),
{
}

/// A key is read under another name only where that name is the key without the ending `_kb`, and
/// so it is for the four sizes that can be spelled with their unit.
pub proof fn a_size_can_be_spelled_with_its_unit(key: Seq<char>)
    ensures
        canonical_name(key) != key ==> key == canonical_name(key) + "_kb"@,
        canonical_name(key) != key <==> {
            ||| key == "max_segment_size"@ + "_kb"@
            ||| key == "memmap_threshold"@ + "_kb"@
            ||| key == "indexing_threshold"@ + "_kb"@
            ||| key == "full_scan_threshold"@ + "_kb"@
        },
{
    reveal_strlit("_kb");
    reveal_strlit("max_segment_size");
    reveal_strlit("max_segment_size_kb");
    reveal_strlit("memmap_threshold");
    reveal_strlit("memmap_threshold_kb");
    reveal_strlit("indexing_threshold");
    reveal_strlit("indexing_threshold_kb");
    reveal_strlit("full_scan_threshold");
    reveal_strlit("full_scan_threshold_kb");
    assert("max_segment_size_kb"@ =~= "max_segment_size"@ + "_kb"@);
    assert("memmap_threshold_kb"@ =~= "memmap_threshold"@ + "_kb"@);
    assert("indexing_threshold_kb"@ =~= "indexing_threshold"@ + "_kb"@);
    assert("full_scan_threshold_kb"@ =~= "full_scan_threshold"@ + "_kb"@);
}

} // verus!
