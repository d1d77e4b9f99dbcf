//! What the hashed texts tell apart.
//!
//! A fingerprint is only as good as the text it is taken over: whatever must move a fingerprint must
//! move that text first. These laws say so for both fingerprints.
use vstd::prelude::*;
use vstd::string::*;
use crate::config;
use crate::config::{
    CollectionConfig, DenseResolution, HnswConfig, Routing, ShardingMethod, SparseResolution,
};
use crate::delimited;
use crate::ids;
use crate::json;
use crate::json::JsonValue;
use crate::parquet_source::{IdFormat, ParquetMapping};
use crate::payload_index;
use crate::payload_index::{FieldSchema, PayloadIndexSchema};
use crate::text;

verus! {

/// What follows the ring in the text that the part fingerprint is taken over.
spec fn id_surface(id: Option<(Seq<char>, IdFormat)>) -> Seq<char> {
    match id {
        Some((column, format)) => ",\"id_column\":"@ + json::quoted(column) + ",\"id_format\":\""@
            + format.name() + "\"}"@,
        None => ",\"id_column\":null,\"id_format\":null}"@,
    }
}

proof fn lemma_id_surfaces_differ(
    a: Option<(Seq<char>, IdFormat)>,
    b: Option<(Seq<char>, IdFormat)>,
)
    requires
        id_surface(a) == id_surface(b),
    ensures
        a == b,
{
    reveal_strlit(",\"id_column\":");
    reveal_strlit(",\"id_column\":null,\"id_format\":null}");
    reveal_strlit(",\"id_format\":\"");
    reveal_strlit("\"}");
    reveal_strlit("Uuid");
    reveal_strlit("UrnUuid");
    reveal_strlit("Integer");
    let left = id_surface(a);
    let right = id_surface(b);
    match (a, b) {
        (Some((column, format)), Some((other, other_format))) => {
            let x = ",\"id_format\":\""@ + format.name() + "\"}"@;
            let y = ",\"id_format\":\""@ + other_format.name() + "\"}"@;
            assert(left.skip(14) =~= json::escaped_all(column) + seq!['"'] + x);
            assert(right.skip(14) =~= json::escaped_all(other) + seq!['"'] + y);
            json::escaping_is_unambiguous(column, other, x, y);
            assert(x.len() == 14 + format.name().len() + 2);
            assert(y.len() == 14 + other_format.name().len() + 2);
            assert(x.skip(14)[0] == format.name()[0] && x.skip(14)[1] == format.name()[1]);
            assert(y.skip(14)[0] == other_format.name()[0] && y.skip(14)[1]
                == other_format.name()[1]);
        },
        (Some((column, format)), None) => {
            assert(left[13] == '"');
            assert(right[13] == 'n');
        },
        (None, Some((column, format))) => {
            assert(left[13] == 'n');
            assert(right[13] == '"');
        },
        (None, None) => {},
    }
}

proof fn lemma_surface_marks(id: Option<(Seq<char>, IdFormat)>)
    ensures
        id_surface(id).len() > 0,
        id_surface(id)[0] == ',',
        ",\"sharding_method\":\""@.len() > 0,
        ",\"sharding_method\":\""@[0] == ',',
        config::sharding_text(ShardingMethod::Auto).len() > 0,
        config::sharding_text(ShardingMethod::Custom).len() > 0,
        config::sharding_text(ShardingMethod::Auto)[0] != config::sharding_text(ShardingMethod::Custom)[0],
{
    reveal_strlit(",\"sharding_method\":\"");
    reveal_strlit("Auto");
    reveal_strlit("Custom");
    reveal_strlit(",\"id_column\":");
    reveal_strlit(",\"id_column\":null,\"id_format\":null}");
}

/// The text that the part fingerprint is taken over, from its head on.
proof fn lemma_surface_shape(r: Routing)
    ensures
        config::part_surface(r) == "{\"version\":3,\"shard_number\":"@ + (text::decimal_text(
            r.shard_number as nat,
        ) + (",\"sharding_method\":\""@ + method_surface(r))),
        method_surface(r) == config::sharding_text(r.sharding_method) + (
        "\",\"hash_ring_shard_scale\":"@ + ring_surface(r)),
{
    assert(config::part_surface(r) =~= "{\"version\":3,\"shard_number\":"@ + (text::decimal_text(
        r.shard_number as nat,
    ) + (",\"sharding_method\":\""@ + method_surface(r))));
}

spec fn ring_surface(r: Routing) -> Seq<char> {
    text::decimal_text(r.hash_ring_shard_scale as nat) + id_surface(r.id)
}

spec fn method_surface(r: Routing) -> Seq<char> {
    config::sharding_text(r.sharding_method) + ("\",\"hash_ring_shard_scale\":"@ + ring_surface(r))
}

proof fn lemma_same_prefix(prefix: Seq<char>, x: Seq<char>, y: Seq<char>)
    requires
        prefix + x == prefix + y,
    ensures
        x == y,
{
    assert((prefix + x).skip(prefix.len() as int) =~= x);
    assert((prefix + y).skip(prefix.len() as int) =~= y);
}

/// Two routings never share the text that the part fingerprint is taken over: anything that would
/// put records in another shard, or under another id, moves the hashed text.
pub proof fn part_surface_tells_routings_apart(a: Routing, b: Routing)
    requires
        config::part_surface(a) == config::part_surface(b),
    ensures
        a == b,
{
    lemma_surface_marks(a.id);
    lemma_surface_marks(b.id);
    lemma_surface_shape(a);
    lemma_surface_shape(b);
    let head = "{\"version\":3,\"shard_number\":"@;
    let mid = ",\"sharding_method\":\""@;
    let next = "\",\"hash_ring_shard_scale\":"@;
    let x = mid + method_surface(a);
    let y = mid + method_surface(b);
    lemma_same_prefix(
        head,
        text::decimal_text(a.shard_number as nat) + x,
        text::decimal_text(b.shard_number as nat) + y,
    );
    assert(x[0] == mid[0] && y[0] == mid[0]);
    text::decimal_then(a.shard_number as nat, x, b.shard_number as nat, y);
    lemma_same_prefix(mid, method_surface(a), method_surface(b));
    assert(method_surface(a)[0] == config::sharding_text(a.sharding_method)[0]);
    assert(method_surface(b)[0] == config::sharding_text(b.sharding_method)[0]);
    assert(a.sharding_method == b.sharding_method);
    lemma_same_prefix(
        config::sharding_text(a.sharding_method),
        next + ring_surface(a),
        next + ring_surface(b),
    );
    lemma_same_prefix(next, ring_surface(a), ring_surface(b));
    text::decimal_then(
        a.hash_ring_shard_scale as nat,
        id_surface(a.id),
        b.hash_ring_shard_scale as nat,
        id_surface(b.id),
    );
    lemma_id_surfaces_differ(a.id, b.id);
}

/// A number or `null`, with something behind it that is no digit.
proof fn lemma_number_then(a: Option<u64>, x: Seq<char>, b: Option<u64>, y: Seq<char>)
    requires
        config::number_text(a) + x == config::number_text(b) + y,
        x.len() > 0,
        y.len() > 0,
        x[0] == ',',
        y[0] == ',',
    ensures
        a == b,
        x == y,
{
    reveal_strlit("null");
    match (a, b) {
        (Some(m), Some(n)) => {
            text::decimal_then(m as nat, x, n as nat, y);
        },
        (Some(m), None) => {
            text::decimal_reads_back(m as nat);
            assert((config::number_text(a) + x)[0] == text::decimal_text(m as nat)[0]);
            assert((config::number_text(b) + y)[0] == 'n');
        },
        (None, Some(n)) => {
            text::decimal_reads_back(n as nat);
            assert((config::number_text(b) + y)[0] == text::decimal_text(n as nat)[0]);
            assert((config::number_text(a) + x)[0] == 'n');
        },
        (None, None) => {
            lemma_same_prefix("null"@, x, y);
        },
    }
}

/// A truth value or `null`, with something behind it.
proof fn lemma_flag_then(a: Option<bool>, x: Seq<char>, b: Option<bool>, y: Seq<char>)
    requires
        config::flag_text(a) + x == config::flag_text(b) + y,
    ensures
        a == b,
        x == y,
{
    reveal_strlit("null");
    reveal_strlit("true");
    reveal_strlit("false");
    assert((config::flag_text(a) + x)[0] == config::flag_text(a)[0]);
    assert((config::flag_text(b) + y)[0] == config::flag_text(b)[0]);
    lemma_same_prefix(config::flag_text(a), x, y);
}

/// The tail of an HNSW text from the placement on.
spec fn placement_tail(hnsw: HnswConfig) -> Seq<char> {
    hnsw.placement.name() + ("\",\"inline_storage\":"@ + (config::flag_text(hnsw.inline_storage)
        + "}"@))
}

proof fn lemma_placement_then(a: HnswConfig, x: Seq<char>, b: HnswConfig, y: Seq<char>)
    requires
        placement_tail(a) + x == placement_tail(b) + y,
    ensures
        a.placement == b.placement,
        a.inline_storage == b.inline_storage,
        x == y,
{
    reveal_strlit("cold");
    reveal_strlit("cached");
    reveal_strlit("pinned");
    let left = placement_tail(a) + x;
    let right = placement_tail(b) + y;
    assert(left[0] == a.placement.name()[0] && left[1] == a.placement.name()[1]);
    assert(right[0] == b.placement.name()[0] && right[1] == b.placement.name()[1]);
    assert(a.placement == b.placement);
    let next = "\",\"inline_storage\":"@;
    let p = config::flag_text(a.inline_storage) + ("}"@ + x);
    let q = config::flag_text(b.inline_storage) + ("}"@ + y);
    assert(left =~= a.placement.name() + (next + p));
    assert(right =~= b.placement.name() + (next + q));
    lemma_same_prefix(a.placement.name(), next + p, next + q);
    lemma_same_prefix(next, p, q);
    lemma_flag_then(a.inline_storage, "}"@ + x, b.inline_storage, "}"@ + y);
    lemma_same_prefix("}"@, x, y);
}

/// An HNSW text, piece by piece, with something behind it.
spec fn hnsw_pieces(h: HnswConfig, x: Seq<char>) -> (Seq<char>, Seq<char>, Seq<char>, Seq<char>) {
    let p4 = ",\"memory_placement\":\""@ + (placement_tail(h) + x);
    let p3 = ",\"payload_m\":"@ + (config::number_text(h.payload_m) + p4);
    let p2 = ",\"full_scan_threshold\":"@ + (text::decimal_text(h.full_scan_threshold as nat) + p3);
    let p1 = ",\"ef_construct\":"@ + (text::decimal_text(h.ef_construct as nat) + p2);
    (p1, p2, p3, p4)
}

proof fn lemma_regroup(p: Seq<char>, q: Seq<char>, x: Seq<char>)
    ensures
        (p + q) + x == p + (q + x),
{
    assert((p + q) + x =~= p + (q + x));
}

/// An HNSW text with its pieces grouped from the back.
proof fn lemma_hnsw_pieces(h: HnswConfig)
    ensures
        config::hnsw_text(h) == "{\"m\":"@ + (text::decimal_text(h.m as nat) + (
        ",\"ef_construct\":"@ + (text::decimal_text(h.ef_construct as nat) + (
        ",\"full_scan_threshold\":"@ + (text::decimal_text(h.full_scan_threshold as nat) + (
        ",\"payload_m\":"@ + (config::number_text(h.payload_m) + (",\"memory_placement\":\""@
            + placement_tail(h))))))))),
{
    let m = text::decimal_text(h.m as nat);
    let ef = text::decimal_text(h.ef_construct as nat);
    let scan = text::decimal_text(h.full_scan_threshold as nat);
    let payload = config::number_text(h.payload_m);
    let flag = config::flag_text(h.inline_storage);
    let l1 = "{\"m\":"@;
    let l2 = l1 + m;
    let l3 = l2 + ",\"ef_construct\":"@;
    let l4 = l3 + ef;
    let l5 = l4 + ",\"full_scan_threshold\":"@;
    let l6 = l5 + scan;
    let l7 = l6 + ",\"payload_m\":"@;
    let l8 = l7 + payload;
    let l9 = l8 + ",\"memory_placement\":\""@;
    let l10 = l9 + h.placement.name();
    let l11 = l10 + "\",\"inline_storage\":"@;
    let r12 = flag + "}"@;
    let r11 = "\",\"inline_storage\":"@ + r12;
    let r10 = placement_tail(h);
    let r9 = ",\"memory_placement\":\""@ + r10;
    let r8 = payload + r9;
    let r7 = ",\"payload_m\":"@ + r8;
    let r6 = scan + r7;
    let r5 = ",\"full_scan_threshold\":"@ + r6;
    let r4 = ef + r5;
    let r3 = ",\"ef_construct\":"@ + r4;
    lemma_regroup(l11, flag, "}"@);
    lemma_regroup(l10, "\",\"inline_storage\":"@, r12);
    lemma_regroup(l9, h.placement.name(), r11);
    lemma_regroup(l8, ",\"memory_placement\":\""@, r10);
    lemma_regroup(l7, payload, r9);
    lemma_regroup(l6, ",\"payload_m\":"@, r8);
    lemma_regroup(l5, scan, r7);
    lemma_regroup(l4, ",\"full_scan_threshold\":"@, r6);
    lemma_regroup(l3, ef, r5);
    lemma_regroup(l2, ",\"ef_construct\":"@, r4);
    lemma_regroup(l1, m, r3);
}

proof fn lemma_hnsw_shape(h: HnswConfig, x: Seq<char>)
    ensures
        config::hnsw_text(h) + x == "{\"m\":"@ + (text::decimal_text(h.m as nat) + hnsw_pieces(
            h,
            x,
        ).0),
{
    let m = text::decimal_text(h.m as nat);
    let ef = text::decimal_text(h.ef_construct as nat);
    let scan = text::decimal_text(h.full_scan_threshold as nat);
    let payload = config::number_text(h.payload_m);
    let r4 = ",\"memory_placement\":\""@ + placement_tail(h);
    let r3 = ",\"payload_m\":"@ + (payload + r4);
    let r2 = ",\"full_scan_threshold\":"@ + (scan + r3);
    let r1 = ",\"ef_construct\":"@ + (ef + r2);
    lemma_hnsw_pieces(h);
    lemma_regroup("{\"m\":"@, m + r1, x);
    lemma_regroup(m, r1, x);
    lemma_regroup(",\"ef_construct\":"@, ef + r2, x);
    lemma_regroup(ef, r2, x);
    lemma_regroup(",\"full_scan_threshold\":"@, scan + r3, x);
    lemma_regroup(scan, r3, x);
    lemma_regroup(",\"payload_m\":"@, payload + r4, x);
    lemma_regroup(payload, r4, x);
    lemma_regroup(",\"memory_placement\":\""@, placement_tail(h), x);
}

proof fn lemma_hnsw_marks()
    ensures
        ",\"ef_construct\":"@.len() > 0 && ",\"ef_construct\":"@[0] == ',',
        ",\"full_scan_threshold\":"@.len() > 0 && ",\"full_scan_threshold\":"@[0] == ',',
        ",\"payload_m\":"@.len() > 0 && ",\"payload_m\":"@[0] == ',',
        ",\"memory_placement\":\""@.len() > 0 && ",\"memory_placement\":\""@[0] == ',',
{
    reveal_strlit(",\"ef_construct\":");
    reveal_strlit(",\"full_scan_threshold\":");
    reveal_strlit(",\"payload_m\":");
    reveal_strlit(",\"memory_placement\":\"");
}

/// Whether two graphs are the same in everything over which a graph is rebuilt.
pub open spec fn same_graph(a: HnswConfig, b: HnswConfig) -> bool {
    &&& a.m == b.m
    &&& a.ef_construct == b.ef_construct
    &&& a.full_scan_threshold == b.full_scan_threshold
    &&& a.payload_m == b.payload_m
    &&& a.placement == b.placement
    &&& a.inline_storage == b.inline_storage
}

/// An HNSW text with something behind it.
proof fn lemma_hnsw_then(a: HnswConfig, x: Seq<char>, b: HnswConfig, y: Seq<char>)
    requires
        config::hnsw_text(a) + x == config::hnsw_text(b) + y,
    ensures
        same_graph(a, b),
        x == y,
{
    lemma_hnsw_marks();
    lemma_hnsw_shape(a, x);
    lemma_hnsw_shape(b, y);
    let (p1a, p2a, p3a, p4a) = hnsw_pieces(a, x);
    let (p1b, p2b, p3b, p4b) = hnsw_pieces(b, y);
    lemma_same_prefix(
        "{\"m\":"@,
        text::decimal_text(a.m as nat) + p1a,
        text::decimal_text(b.m as nat) + p1b,
    );
    text::decimal_then(a.m as nat, p1a, b.m as nat, p1b);
    lemma_same_prefix(
        ",\"ef_construct\":"@,
        text::decimal_text(a.ef_construct as nat) + p2a,
        text::decimal_text(b.ef_construct as nat) + p2b,
    );
    text::decimal_then(a.ef_construct as nat, p2a, b.ef_construct as nat, p2b);
    lemma_same_prefix(
        ",\"full_scan_threshold\":"@,
        text::decimal_text(a.full_scan_threshold as nat) + p3a,
        text::decimal_text(b.full_scan_threshold as nat) + p3b,
    );
    text::decimal_then(a.full_scan_threshold as nat, p3a, b.full_scan_threshold as nat, p3b);
    lemma_same_prefix(
        ",\"payload_m\":"@,
        config::number_text(a.payload_m) + p4a,
        config::number_text(b.payload_m) + p4b,
    );
    lemma_number_then(a.payload_m, p4a, b.payload_m, p4b);
    lemma_same_prefix(
        ",\"memory_placement\":\""@,
        placement_tail(a) + x,
        placement_tail(b) + y,
    );
    lemma_placement_then(a, x, b, y);
}

/// Every field of an HNSW config over which a graph is rebuilt, its placement included, moves the
/// text that the full fingerprint is taken over.
pub proof fn hnsw_text_tells_graphs_apart(a: HnswConfig, b: HnswConfig)
    ensures
        config::hnsw_text(a) == config::hnsw_text(b) <==> same_graph(a, b),
{
    if config::hnsw_text(a) == config::hnsw_text(b) {
        lemma_hnsw_then(a, Seq::empty(), b, Seq::empty());
    }
}

/// Whether two graphs, where there are any, are the same in everything over which one is rebuilt.
pub open spec fn same_graphs(a: Option<HnswConfig>, b: Option<HnswConfig>) -> bool {
    match (a, b) {
        (Some(a), Some(b)) => same_graph(a, b),
        (None, None) => true,
        _ => false,
    }
}

/// The graph of a vector in the hashed text.
spec fn graph_text(hnsw: Option<HnswConfig>) -> Seq<char> {
    match hnsw {
        Some(hnsw) => config::hnsw_text(hnsw),
        None => "null"@,
    }
}

proof fn lemma_graph_then(a: Option<HnswConfig>, x: Seq<char>, b: Option<HnswConfig>, y: Seq<char>)
    requires
        graph_text(a) + x == graph_text(b) + y,
    ensures
        same_graphs(a, b),
        x == y,
{
    reveal_strlit("null");
    reveal_strlit("{\"m\":");
    match (a, b) {
        (Some(g), Some(h)) => {
            lemma_hnsw_then(g, x, h, y);
        },
        (Some(g), None) => {
            lemma_hnsw_shape(g, x);
            assert((graph_text(a) + x)[0] == '{');
            assert((graph_text(b) + y)[0] == 'n');
        },
        (None, Some(h)) => {
            lemma_hnsw_shape(h, y);
            assert((graph_text(a) + x)[0] == 'n');
            assert((graph_text(b) + y)[0] == '{');
        },
        (None, None) => {
            lemma_same_prefix("null"@, x, y);
        },
    }
}

/// What a document states of quantization; nothing is `null`.
pub open spec fn quantization_of(dense: DenseResolution) -> JsonValue {
    match dense.quantization {
        Some(quantization) => quantization@,
        None => JsonValue::Null,
    }
}

/// Whether two dense vectors are the same in everything that decides over a rebuild.
pub open spec fn same_dense(a: DenseResolution, b: DenseResolution) -> bool {
    &&& json::json_text(a.plain@) == json::json_text(b.plain@)
    &&& a.storage_on_disk == b.storage_on_disk
    &&& same_graphs(a.hnsw, b.hnsw)
    &&& json::json_text(quantization_of(a)) == json::json_text(quantization_of(b))
}

/// A dense text, piece by piece, with something behind it.
spec fn dense_pieces(d: DenseResolution, x: Seq<char>) -> (Seq<char>, Seq<char>, Seq<char>) {
    let p3 = ",\"quantization\":"@ + (json::json_text(quantization_of(d)) + ("}"@ + x));
    let p2 = ",\"hnsw\":"@ + (graph_text(d.hnsw) + p3);
    let p1 = ",\"storage_on_disk\":"@ + (config::flag_text(d.storage_on_disk) + p2);
    (p1, p2, p3)
}

proof fn lemma_dense_shape(d: DenseResolution, x: Seq<char>)
    ensures
        config::dense_text(d) + x == "{\"plain\":"@ + (json::json_text(d.plain@) + dense_pieces(
            d,
            x,
        ).0),
{
    let s0 = "{\"plain\":"@;
    let p1 = json::json_text(d.plain@);
    let s1 = s0 + p1;
    let p2 = ",\"storage_on_disk\":"@;
    let s2 = s1 + p2;
    let p3 = config::flag_text(d.storage_on_disk);
    let s3 = s2 + p3;
    let p4 = ",\"hnsw\":"@;
    let s4 = s3 + p4;
    let p5 = graph_text(d.hnsw);
    let s5 = s4 + p5;
    let p6 = ",\"quantization\":"@;
    let s6 = s5 + p6;
    let p7 = json::json_text(quantization_of(d));
    let s7 = s6 + p7;
    let p8 = "}"@;
    let s8 = s7 + p8;
    assert(config::dense_text(d) == s8);
    let r9 = x;
    lemma_regroup(s7, p8, r9);
    let r8 = p8 + r9;
    lemma_regroup(s6, p7, r8);
    let r7 = p7 + r8;
    lemma_regroup(s5, p6, r7);
    let r6 = p6 + r7;
    lemma_regroup(s4, p5, r6);
    let r5 = p5 + r6;
    lemma_regroup(s3, p4, r5);
    let r4 = p4 + r5;
    lemma_regroup(s2, p3, r4);
    let r3 = p3 + r4;
    lemma_regroup(s1, p2, r3);
    let r2 = p2 + r3;
    lemma_regroup(s0, p1, r2);
    let r1 = p1 + r2;
}

proof fn lemma_dense_then(a: DenseResolution, x: Seq<char>, b: DenseResolution, y: Seq<char>)
    requires
        config::dense_text(a) + x == config::dense_text(b) + y,
    ensures
        same_dense(a, b),
        x == y,
{
    lemma_dense_shape(a, x);
    lemma_dense_shape(b, y);
    let (p1a, p2a, p3a) = dense_pieces(a, x);
    let (p1b, p2b, p3b) = dense_pieces(b, y);
    reveal_strlit(",\"storage_on_disk\":");
    lemma_same_prefix(
        "{\"plain\":"@,
        json::json_text(a.plain@) + p1a,
        json::json_text(b.plain@) + p1b,
    );
    delimited::values_are_told_apart(a.plain@, b.plain@);
    assert(p1a[0] == ',' && p1b[0] == ',');
    delimited::lemma_apart(json::json_text(a.plain@), json::json_text(b.plain@), p1a, p1b);
    lemma_same_prefix(
        ",\"storage_on_disk\":"@,
        config::flag_text(a.storage_on_disk) + p2a,
        config::flag_text(b.storage_on_disk) + p2b,
    );
    lemma_flag_then(a.storage_on_disk, p2a, b.storage_on_disk, p2b);
    lemma_same_prefix(",\"hnsw\":"@, graph_text(a.hnsw) + p3a, graph_text(b.hnsw) + p3b);
    lemma_graph_then(a.hnsw, p3a, b.hnsw, p3b);
    let qa = json::json_text(quantization_of(a));
    let qb = json::json_text(quantization_of(b));
    lemma_same_prefix(",\"quantization\":"@, qa + ("}"@ + x), qb + ("}"@ + y));
    delimited::values_are_told_apart(quantization_of(a), quantization_of(b));
    reveal_strlit("}");
    assert(("}"@ + x)[0] == '}' && ("}"@ + y)[0] == '}');
    delimited::lemma_apart(qa, qb, "}"@ + x, "}"@ + y);
    lemma_same_prefix("}"@, x, y);
}

/// Dense texts are told apart, and are the same only for vectors that are the same in everything
/// that decides over a rebuild.
proof fn lemma_dense_apart(a: DenseResolution, b: DenseResolution)
    ensures
        delimited::apart(config::dense_text(a), config::dense_text(b)),
        config::dense_text(a) == config::dense_text(b) ==> same_dense(a, b),
{
    let s = config::dense_text(a);
    let t = config::dense_text(b);
    assert forall|x: Seq<char>, y: Seq<char>| #[trigger] (s + x) == #[trigger] (t + y) implies s
        == t && x == y by {
        lemma_dense_then(a, x, b, y);
        assert((s + x).take(s.len() as int) =~= s);
        assert((t + y).take(t.len() as int) =~= t);
    }
    reveal(delimited::apart);
    if s == t {
        assert(s + Seq::<char>::empty() == t + Seq::<char>::empty());
        lemma_dense_then(a, Seq::empty(), b, Seq::empty());
    }
}

/// The placement of a sparse vector in the hashed text.
spec fn placement_text(memory: Option<config::Memory>) -> Seq<char> {
    match memory {
        Some(memory) => "\""@ + memory.name() + "\""@,
        None => "null"@,
    }
}

proof fn lemma_placement_apart(
    a: Option<config::Memory>,
    x: Seq<char>,
    b: Option<config::Memory>,
    y: Seq<char>,
)
    requires
        placement_text(a) + x == placement_text(b) + y,
    ensures
        a == b,
        x == y,
{
    reveal_strlit("null");
    reveal_strlit("\"");
    reveal_strlit("cold");
    reveal_strlit("cached");
    reveal_strlit("pinned");
    let left = placement_text(a) + x;
    let right = placement_text(b) + y;
    match (a, b) {
        (Some(m), Some(n)) => {
            assert(left[1] == m.name()[0] && left[2] == m.name()[1]);
            assert(right[1] == n.name()[0] && right[2] == n.name()[1]);
        },
        (Some(m), None) => {
            assert(left[0] == '"' && right[0] == 'n');
        },
        (None, Some(n)) => {
            assert(left[0] == 'n' && right[0] == '"');
        },
        (None, None) => {},
    }
    lemma_same_prefix(placement_text(a), x, y);
}

/// Whether two sparse vectors are the same in everything that decides over a rebuild.
pub open spec fn same_sparse(a: SparseResolution, b: SparseResolution) -> bool {
    &&& json::json_text(config::unplaced(a.plain@)) == json::json_text(config::unplaced(b.plain@))
    &&& a.memory_placement == b.memory_placement
}

spec fn sparse_tail(s: SparseResolution, x: Seq<char>) -> Seq<char> {
    ",\"memory_placement\":"@ + (placement_text(s.memory_placement) + ("}"@ + x))
}

proof fn lemma_sparse_shape(s: SparseResolution, x: Seq<char>)
    ensures
        config::sparse_text(s) + x == "{\"plain\":"@ + (json::json_text(config::unplaced(s.plain@))
            + sparse_tail(s, x)),
{
    assert(config::sparse_text(s) + x =~= "{\"plain\":"@ + (json::json_text(
        config::unplaced(s.plain@),
    ) + sparse_tail(s, x)));
}

proof fn lemma_sparse_then(a: SparseResolution, x: Seq<char>, b: SparseResolution, y: Seq<char>)
    requires
        config::sparse_text(a) + x == config::sparse_text(b) + y,
    ensures
        same_sparse(a, b),
        x == y,
{
    lemma_sparse_shape(a, x);
    lemma_sparse_shape(b, y);
    let pa = json::json_text(config::unplaced(a.plain@));
    let pb = json::json_text(config::unplaced(b.plain@));
    reveal_strlit(",\"memory_placement\":");
    lemma_same_prefix("{\"plain\":"@, pa + sparse_tail(a, x), pb + sparse_tail(b, y));
    delimited::values_are_told_apart(config::unplaced(a.plain@), config::unplaced(b.plain@));
    assert(sparse_tail(a, x)[0] == ',' && sparse_tail(b, y)[0] == ',');
    delimited::lemma_apart(pa, pb, sparse_tail(a, x), sparse_tail(b, y));
    lemma_same_prefix(
        ",\"memory_placement\":"@,
        placement_text(a.memory_placement) + ("}"@ + x),
        placement_text(b.memory_placement) + ("}"@ + y),
    );
    lemma_placement_apart(a.memory_placement, "}"@ + x, b.memory_placement, "}"@ + y);
    lemma_same_prefix("}"@, x, y);
}

proof fn lemma_sparse_apart(a: SparseResolution, b: SparseResolution)
    ensures
        delimited::apart(config::sparse_text(a), config::sparse_text(b)),
        config::sparse_text(a) == config::sparse_text(b) ==> same_sparse(a, b),
{
    let s = config::sparse_text(a);
    let t = config::sparse_text(b);
    assert forall|x: Seq<char>, y: Seq<char>| #[trigger] (s + x) == #[trigger] (t + y) implies s
        == t && x == y by {
        lemma_sparse_then(a, x, b, y);
        assert((s + x).take(s.len() as int) =~= s);
        assert((t + y).take(t.len() as int) =~= t);
    }
    reveal(delimited::apart);
    if s == t {
        assert(s + Seq::<char>::empty() == t + Seq::<char>::empty());
        lemma_sparse_then(a, Seq::empty(), b, Seq::empty());
    }
}

/// Named texts as the members of an object.
spec fn named_texts(named: Seq<(Seq<char>, Seq<char>)>) -> Seq<Seq<char>> {
    Seq::new(named.len(), |i: int| delimited::member_text(named[i].0, named[i].1))
}

/// Objects whose values are told apart are themselves told apart, name by name and value by value.
proof fn lemma_named_then(
    a: Seq<(Seq<char>, Seq<char>)>,
    x: Seq<char>,
    b: Seq<(Seq<char>, Seq<char>)>,
    y: Seq<char>,
)
    requires
        forall|i: int, j: int|
            0 <= i < a.len() && 0 <= j < b.len() ==> delimited::apart(
                (#[trigger] a[i]).1,
                (#[trigger] b[j]).1,
            ),
        config::braced(named_texts(a)) + x == config::braced(named_texts(b)) + y,
    ensures
        a == b,
        x == y,
{
    let m = named_texts(a);
    let n = named_texts(b);
    assert forall|i: int, j: int| 0 <= i < m.len() && 0 <= j < n.len() implies delimited::apart(
        #[trigger] m[i],
        #[trigger] n[j],
    ) by {
        assert(delimited::apart(a[i].1, b[j].1));
        delimited::lemma_members_apart(a[i].0, a[i].1, b[j].0, b[j].1);
    }
    assert forall|i: int| 0 <= i < m.len() implies delimited::begins_value(#[trigger] m[i]) by {
        delimited::lemma_same_apart(a[i].1);
        delimited::lemma_members_apart(a[i].0, a[i].1, a[i].0, a[i].1);
    }
    assert forall|i: int| 0 <= i < n.len() implies delimited::begins_value(#[trigger] n[i]) by {
        delimited::lemma_same_apart(b[i].1);
        delimited::lemma_members_apart(b[i].0, b[i].1, b[i].0, b[i].1);
    }
    reveal_strlit("{");
    reveal_strlit("}");
    assert((config::braced(m) + x).skip(1) =~= text::joined(m, ","@) + seq!['}'] + x);
    assert((config::braced(n) + y).skip(1) =~= text::joined(n, ","@) + seq!['}'] + y);
    delimited::lemma_lists_apart(m, n, '}', x, y);
    assert(m.len() == n.len());
    assert forall|i: int| 0 <= i < a.len() implies a[i] == b[i] by {
        assert(m[i] == n[i]);
        assert(delimited::apart(a[i].1, b[i].1));
        delimited::lemma_members_apart(a[i].0, a[i].1, b[i].0, b[i].1);
    }
    assert(a =~= b);
}

/// Whether two tables of dense vectors have the same names, and the same under each.
pub open spec fn same_dense_vectors(
    a: Seq<(Seq<char>, DenseResolution)>,
    b: Seq<(Seq<char>, DenseResolution)>,
) -> bool {
    &&& a.len() == b.len()
    &&& forall|i: int|
        0 <= i < a.len() ==> (#[trigger] a[i]).0 == b[i].0 && same_dense(a[i].1, b[i].1)
}

/// Whether two tables of sparse vectors have the same names, and the same under each.
pub open spec fn same_sparse_vectors(
    a: Seq<(Seq<char>, SparseResolution)>,
    b: Seq<(Seq<char>, SparseResolution)>,
) -> bool {
    &&& a.len() == b.len()
    &&& forall|i: int|
        0 <= i < a.len() ==> (#[trigger] a[i]).0 == b[i].0 && same_sparse(a[i].1, b[i].1)
}

proof fn lemma_dense_vectors_then(
    a: Seq<(Seq<char>, DenseResolution)>,
    x: Seq<char>,
    b: Seq<(Seq<char>, DenseResolution)>,
    y: Seq<char>,
)
    requires
        config::dense_surface(a) + x == config::dense_surface(b) + y,
    ensures
        same_dense_vectors(a, b),
        x == y,
{
    let m = Seq::new(a.len(), |i: int| (a[i].0, config::dense_text(a[i].1)));
    let n = Seq::new(b.len(), |i: int| (b[i].0, config::dense_text(b[i].1)));
    assert(config::dense_surface(a) == config::braced(named_texts(m))) by {
        assert(named_texts(m) =~= Seq::new(
            a.len(),
            |i: int| delimited::member_text(a[i].0, config::dense_text(a[i].1)),
        ));
    }
    assert(config::dense_surface(b) == config::braced(named_texts(n))) by {
        assert(named_texts(n) =~= Seq::new(
            b.len(),
            |i: int| delimited::member_text(b[i].0, config::dense_text(b[i].1)),
        ));
    }
    assert forall|i: int, j: int| 0 <= i < m.len() && 0 <= j < n.len() implies delimited::apart(
        (#[trigger] m[i]).1,
        (#[trigger] n[j]).1,
    ) by {
        lemma_dense_apart(a[i].1, b[j].1);
    }
    lemma_named_then(m, x, n, y);
    assert(m.len() == n.len());
    assert forall|i: int| 0 <= i < a.len() implies (#[trigger] a[i]).0 == b[i].0 && same_dense(
        a[i].1,
        b[i].1,
    ) by {
        assert(m[i] == n[i]);
        lemma_dense_apart(a[i].1, b[i].1);
    }
}

proof fn lemma_sparse_vectors_then(
    a: Seq<(Seq<char>, SparseResolution)>,
    x: Seq<char>,
    b: Seq<(Seq<char>, SparseResolution)>,
    y: Seq<char>,
)
    requires
        config::sparse_surface(a) + x == config::sparse_surface(b) + y,
    ensures
        same_sparse_vectors(a, b),
        x == y,
{
    let m = Seq::new(a.len(), |i: int| (a[i].0, config::sparse_text(a[i].1)));
    let n = Seq::new(b.len(), |i: int| (b[i].0, config::sparse_text(b[i].1)));
    assert(config::sparse_surface(a) == config::braced(named_texts(m))) by {
        assert(named_texts(m) =~= Seq::new(
            a.len(),
            |i: int| delimited::member_text(a[i].0, config::sparse_text(a[i].1)),
        ));
    }
    assert(config::sparse_surface(b) == config::braced(named_texts(n))) by {
        assert(named_texts(n) =~= Seq::new(
            b.len(),
            |i: int| delimited::member_text(b[i].0, config::sparse_text(b[i].1)),
        ));
    }
    assert forall|i: int, j: int| 0 <= i < m.len() && 0 <= j < n.len() implies delimited::apart(
        (#[trigger] m[i]).1,
        (#[trigger] n[j]).1,
    ) by {
        lemma_sparse_apart(a[i].1, b[j].1);
    }
    lemma_named_then(m, x, n, y);
    assert(m.len() == n.len());
    assert forall|i: int| 0 <= i < a.len() implies (#[trigger] a[i]).0 == b[i].0 && same_sparse(
        a[i].1,
        b[i].1,
    ) by {
        assert(m[i] == n[i]);
        lemma_sparse_apart(a[i].1, b[i].1);
    }
}

/// The payload indexes in the text that the full fingerprint is taken over.
pub open spec fn index_text(payload_index: Option<PayloadIndexSchema>) -> Seq<char> {
    match payload_index {
        Some(schema) => config::index_surface(schema.schema@),
        None => "null"@,
    }
}

/// The definition of an index in canonical form, as it is hashed.
pub open spec fn definition_text(field: FieldSchema) -> Seq<char> {
    json::json_text(payload_index::canonical_definition(field)->0)
}

/// Whether two schemas, where there are any, index the same fields, each by the same definition in
/// canonical form.
pub open spec fn same_indexes(a: Option<PayloadIndexSchema>, b: Option<PayloadIndexSchema>) -> bool {
    match (a, b) {
        (Some(a), Some(b)) => {
            &&& a.schema@.len() == b.schema@.len()
            &&& forall|i: int|
                0 <= i < a.schema@.len() ==> (#[trigger] a.schema@[i]).0 == b.schema@[i].0
                    && definition_text(a.schema@[i].1) == definition_text(b.schema@[i].1)
        },
        (None, None) => true,
        _ => false,
    }
}

proof fn lemma_indexes_then(
    a: Option<PayloadIndexSchema>,
    x: Seq<char>,
    b: Option<PayloadIndexSchema>,
    y: Seq<char>,
)
    requires
        index_text(a) + x == index_text(b) + y,
    ensures
        same_indexes(a, b),
        x == y,
{
    reveal_strlit("null");
    reveal_strlit("{");
    match (a, b) {
        (Some(s), Some(t)) => {
            let m = Seq::new(
                s.schema@.len(),
                |i: int| (s.schema@[i].0, definition_text(s.schema@[i].1)),
            );
            let n = Seq::new(
                t.schema@.len(),
                |i: int| (t.schema@[i].0, definition_text(t.schema@[i].1)),
            );
            lemma_index_surface(s.schema@, m);
            lemma_index_surface(t.schema@, n);
            assert forall|i: int, j: int|
                0 <= i < m.len() && 0 <= j < n.len() implies delimited::apart(
                (#[trigger] m[i]).1,
                (#[trigger] n[j]).1,
            ) by {
                let f = s.schema@[i];
                let g = t.schema@[j];
                delimited::values_are_told_apart(
                    payload_index::canonical_definition(f.1)->0,
                    payload_index::canonical_definition(g.1)->0,
                );
            }
            lemma_named_then(m, x, n, y);
            assert forall|i: int| 0 <= i < s.schema@.len() implies (#[trigger] s.schema@[i]).0
                == t.schema@[i].0 && definition_text(s.schema@[i].1) == definition_text(
                t.schema@[i].1,
            ) by {
                assert(m[i] == n[i]);
            }
        },
        (Some(s), None) => {
            assert((index_text(a) + x)[0] == '{');
            assert((index_text(b) + y)[0] == 'n');
        },
        (None, Some(t)) => {
            assert((index_text(a) + x)[0] == 'n');
            assert((index_text(b) + y)[0] == '{');
        },
        (None, None) => {
            lemma_same_prefix("null"@, x, y);
        },
    }
}

proof fn lemma_index_surface(
    schema: Seq<(Seq<char>, FieldSchema)>,
    named: Seq<(Seq<char>, Seq<char>)>,
)
    requires
        named.len() == schema.len(),
        forall|i: int|
            0 <= i < named.len() ==> #[trigger] named[i] == (
                schema[i].0,
                definition_text(schema[i].1),
            ),
    ensures
        config::index_surface(schema) == config::braced(named_texts(named)),
{
    assert(named_texts(named) =~= Seq::new(
        schema.len(),
        |i: int|
            delimited::member_text(
                schema[i].0,
                json::json_text(payload_index::canonical_definition(schema[i].1)->0),
            ),
    ));
}

/// The text that the full fingerprint is taken over, from the sparse vectors on.
spec fn sparse_tail_of(c: CollectionConfig) -> Seq<char> {
    ",\"sparse_vectors\":"@ + (config::sparse_surface(c.sparse_resolution@)
        + "}"@)
}

/// The text that the full fingerprint is taken over, from the dense vectors on.
spec fn dense_tail(c: CollectionConfig) -> Seq<char> {
    ",\"dense_vectors\":"@ + (config::dense_surface(c.dense_resolution@)
        + sparse_tail_of(c))
}

/// The text that the full fingerprint is taken over, from the payload indexes on.
spec fn indexes_tail(c: CollectionConfig, i: Option<PayloadIndexSchema>) -> Seq<char> {
    ",\"payload_index\":"@ + (index_text(i)
        + dense_tail(c))
}

/// The text that the full fingerprint is taken over, from the payload storage on.
spec fn payload_tail(c: CollectionConfig, i: Option<PayloadIndexSchema>) -> Seq<char> {
    ",\"payload_storage_on_disk\":"@ + (config::bool_text(c.payload_storage_on_disk)
        + indexes_tail(c, i))
}

/// The text that the full fingerprint is taken over, from the deferred points on.
spec fn deferred_tail(c: CollectionConfig, i: Option<PayloadIndexSchema>) -> Seq<char> {
    ",\"deferred_points_threshold_bytes\":"@ + (config::number_text(c.deferred_points_threshold_bytes)
        + payload_tail(c, i))
}

/// The text that the full fingerprint is taken over, from the mapping threshold on.
spec fn memmap_tail(c: CollectionConfig, i: Option<PayloadIndexSchema>) -> Seq<char> {
    ",\"memmap_threshold_kb\":"@ + (text::decimal_text(c.memmap_threshold_kb as nat)
        + deferred_tail(c, i))
}

/// The text that the full fingerprint is taken over, from the indexing threshold on.
spec fn indexing_tail(c: CollectionConfig, i: Option<PayloadIndexSchema>) -> Seq<char> {
    ",\"indexing_threshold_kb\":"@ + (text::decimal_text(c.indexing_threshold_kb as nat)
        + memmap_tail(c, i))
}

/// The text that the full fingerprint is taken over, from the size limit on.
spec fn size_tail(c: CollectionConfig, i: Option<PayloadIndexSchema>) -> Seq<char> {
    ",\"max_segment_size_kb\":"@ + (config::number_text(c.max_segment_size)
        + indexing_tail(c, i))
}

/// The text that the full fingerprint is taken over, from the number of segments on.
spec fn segments_tail(c: CollectionConfig, i: Option<PayloadIndexSchema>) -> Seq<char> {
    ",\"default_segment_number\":"@ + (text::decimal_text(c.default_segment_number as nat)
        + size_tail(c, i))
}

/// The text that the full fingerprint is taken over, from the ring on.
spec fn ring_tail(c: CollectionConfig, i: Option<PayloadIndexSchema>) -> Seq<char> {
    "\",\"hash_ring_shard_scale\":"@ + (text::decimal_text(c.hash_ring_shard_scale as nat)
        + segments_tail(c, i))
}

/// The text that the full fingerprint is taken over, from the sharding method on.
spec fn method_tail(c: CollectionConfig, i: Option<PayloadIndexSchema>) -> Seq<char> {
    ",\"sharding_method\":\""@ + (config::sharding_text(config::sharding_of(c.sharding_method))
        + ring_tail(c, i))
}

proof fn lemma_full_shape(c: CollectionConfig, i: Option<PayloadIndexSchema>)
    ensures
        config::full_surface(c, i) == "{\"version\":5,\"shard_number\":"@ + (text::decimal_text(c.shard_number as nat)
            + method_tail(c, i)),
{
    let s0 = "{\"version\":5,\"shard_number\":"@;
    let p1 = text::decimal_text(c.shard_number as nat);
    let s1 = s0 + p1;
    let p2 = ",\"sharding_method\":\""@;
    let s2 = s1 + p2;
    let p3 = config::sharding_text(config::sharding_of(c.sharding_method));
    let s3 = s2 + p3;
    let p4 = "\",\"hash_ring_shard_scale\":"@;
    let s4 = s3 + p4;
    let p5 = text::decimal_text(c.hash_ring_shard_scale as nat);
    let s5 = s4 + p5;
    let p6 = ",\"default_segment_number\":"@;
    let s6 = s5 + p6;
    let p7 = text::decimal_text(c.default_segment_number as nat);
    let s7 = s6 + p7;
    let p8 = ",\"max_segment_size_kb\":"@;
    let s8 = s7 + p8;
    let p9 = config::number_text(c.max_segment_size);
    let s9 = s8 + p9;
    let p10 = ",\"indexing_threshold_kb\":"@;
    let s10 = s9 + p10;
    let p11 = text::decimal_text(c.indexing_threshold_kb as nat);
    let s11 = s10 + p11;
    let p12 = ",\"memmap_threshold_kb\":"@;
    let s12 = s11 + p12;
    let p13 = text::decimal_text(c.memmap_threshold_kb as nat);
    let s13 = s12 + p13;
    let p14 = ",\"deferred_points_threshold_bytes\":"@;
    let s14 = s13 + p14;
    let p15 = config::number_text(c.deferred_points_threshold_bytes);
    let s15 = s14 + p15;
    let p16 = ",\"payload_storage_on_disk\":"@;
    let s16 = s15 + p16;
    let p17 = config::bool_text(c.payload_storage_on_disk);
    let s17 = s16 + p17;
    let p18 = ",\"payload_index\":"@;
    let s18 = s17 + p18;
    let p19 = index_text(i);
    let s19 = s18 + p19;
    let p20 = ",\"dense_vectors\":"@;
    let s20 = s19 + p20;
    let p21 = config::dense_surface(c.dense_resolution@);
    let s21 = s20 + p21;
    let p22 = ",\"sparse_vectors\":"@;
    let s22 = s21 + p22;
    let p23 = config::sparse_surface(c.sparse_resolution@);
    let s23 = s22 + p23;
    let p24 = "}"@;
    let s24 = s23 + p24;
    assert(config::full_surface(c, i) == s24);
    let r24 = p24;
    lemma_regroup(s22, p23, r24);
    let r23 = p23 + r24;
    lemma_regroup(s21, p22, r23);
    let r22 = p22 + r23;
    lemma_regroup(s20, p21, r22);
    let r21 = p21 + r22;
    lemma_regroup(s19, p20, r21);
    let r20 = p20 + r21;
    lemma_regroup(s18, p19, r20);
    let r19 = p19 + r20;
    lemma_regroup(s17, p18, r19);
    let r18 = p18 + r19;
    lemma_regroup(s16, p17, r18);
    let r17 = p17 + r18;
    lemma_regroup(s15, p16, r17);
    let r16 = p16 + r17;
    lemma_regroup(s14, p15, r16);
    let r15 = p15 + r16;
    lemma_regroup(s13, p14, r15);
    let r14 = p14 + r15;
    lemma_regroup(s12, p13, r14);
    let r13 = p13 + r14;
    lemma_regroup(s11, p12, r13);
    let r12 = p12 + r13;
    lemma_regroup(s10, p11, r12);
    let r11 = p11 + r12;
    lemma_regroup(s9, p10, r11);
    let r10 = p10 + r11;
    lemma_regroup(s8, p9, r10);
    let r9 = p9 + r10;
    lemma_regroup(s7, p8, r9);
    let r8 = p8 + r9;
    lemma_regroup(s6, p7, r8);
    let r7 = p7 + r8;
    lemma_regroup(s5, p6, r7);
    let r6 = p6 + r7;
    lemma_regroup(s4, p5, r6);
    let r5 = p5 + r6;
    lemma_regroup(s3, p4, r5);
    let r4 = p4 + r5;
    lemma_regroup(s2, p3, r4);
    let r3 = p3 + r4;
    lemma_regroup(s1, p2, r3);
    let r2 = p2 + r3;
    lemma_regroup(s0, p1, r2);
    let r1 = p1 + r2;
}

proof fn lemma_full_marks()
    ensures
        ",\"sharding_method\":\""@.len() > 0 && ",\"sharding_method\":\""@[0] == ',',
        ",\"default_segment_number\":"@.len() > 0 && ",\"default_segment_number\":"@[0] == ',',
        ",\"max_segment_size_kb\":"@.len() > 0 && ",\"max_segment_size_kb\":"@[0] == ',',
        ",\"indexing_threshold_kb\":"@.len() > 0 && ",\"indexing_threshold_kb\":"@[0] == ',',
        ",\"memmap_threshold_kb\":"@.len() > 0 && ",\"memmap_threshold_kb\":"@[0] == ',',
        ",\"deferred_points_threshold_bytes\":"@.len() > 0 && ",\"deferred_points_threshold_bytes\":"@[0] == ',',
        ",\"payload_storage_on_disk\":"@.len() > 0 && ",\"payload_storage_on_disk\":"@[0] == ',',
        ",\"payload_index\":"@.len() > 0 && ",\"payload_index\":"@[0] == ',',
        ",\"dense_vectors\":"@.len() > 0 && ",\"dense_vectors\":"@[0] == ',',
        ",\"sparse_vectors\":"@.len() > 0 && ",\"sparse_vectors\":"@[0] == ',',
{
    reveal_strlit(",\"sharding_method\":\"");
    reveal_strlit(",\"default_segment_number\":");
    reveal_strlit(",\"max_segment_size_kb\":");
    reveal_strlit(",\"indexing_threshold_kb\":");
    reveal_strlit(",\"memmap_threshold_kb\":");
    reveal_strlit(",\"deferred_points_threshold_bytes\":");
    reveal_strlit(",\"payload_storage_on_disk\":");
    reveal_strlit(",\"payload_index\":");
    reveal_strlit(",\"dense_vectors\":");
    reveal_strlit(",\"sparse_vectors\":");
}

proof fn lemma_methods_then(a: ShardingMethod, x: Seq<char>, b: ShardingMethod, y: Seq<char>)
    requires
        config::sharding_text(a) + x == config::sharding_text(b) + y,
    ensures
        a == b,
        x == y,
{
    reveal_strlit("Auto");
    reveal_strlit("Custom");
    assert((config::sharding_text(a) + x)[0] == config::sharding_text(a)[0]);
    assert((config::sharding_text(b) + y)[0] == config::sharding_text(b)[0]);
    lemma_same_prefix(config::sharding_text(a), x, y);
}

/// The first half of the surface: what is stated of the collection as a whole.
proof fn lemma_numbers_of_surface(
    a: CollectionConfig,
    ia: Option<PayloadIndexSchema>,
    b: CollectionConfig,
    ib: Option<PayloadIndexSchema>,
)
    requires
        config::full_surface(a, ia) == config::full_surface(b, ib),
    ensures
        a.shard_number == b.shard_number,
        config::sharding_of(a.sharding_method) == config::sharding_of(b.sharding_method),
        a.hash_ring_shard_scale == b.hash_ring_shard_scale,
        a.default_segment_number == b.default_segment_number,
        a.max_segment_size == b.max_segment_size,
        indexing_tail(a, ia) == indexing_tail(b, ib),
{
    lemma_full_marks();
    lemma_full_shape(a, ia);
    lemma_full_shape(b, ib);
    lemma_same_prefix(
        "{\"version\":5,\"shard_number\":"@,
        text::decimal_text(a.shard_number as nat) + method_tail(a, ia),
        text::decimal_text(b.shard_number as nat) + method_tail(b, ib),
    );
    text::decimal_then(
        a.shard_number as nat,
        method_tail(a, ia),
        b.shard_number as nat,
        method_tail(b, ib),
    );
    let ma = config::sharding_of(a.sharding_method);
    let mb = config::sharding_of(b.sharding_method);
    lemma_same_prefix(
        ",\"sharding_method\":\""@,
        config::sharding_text(ma) + ring_tail(a, ia),
        config::sharding_text(mb) + ring_tail(b, ib),
    );
    lemma_methods_then(ma, ring_tail(a, ia), mb, ring_tail(b, ib));
    lemma_same_prefix(
        "\",\"hash_ring_shard_scale\":"@,
        text::decimal_text(a.hash_ring_shard_scale as nat) + segments_tail(a, ia),
        text::decimal_text(b.hash_ring_shard_scale as nat) + segments_tail(b, ib),
    );
    text::decimal_then(
        a.hash_ring_shard_scale as nat,
        segments_tail(a, ia),
        b.hash_ring_shard_scale as nat,
        segments_tail(b, ib),
    );
    lemma_same_prefix(
        ",\"default_segment_number\":"@,
        text::decimal_text(a.default_segment_number as nat) + size_tail(a, ia),
        text::decimal_text(b.default_segment_number as nat) + size_tail(b, ib),
    );
    text::decimal_then(
        a.default_segment_number as nat,
        size_tail(a, ia),
        b.default_segment_number as nat,
        size_tail(b, ib),
    );
    lemma_same_prefix(
        ",\"max_segment_size_kb\":"@,
        config::number_text(a.max_segment_size) + indexing_tail(a, ia),
        config::number_text(b.max_segment_size) + indexing_tail(b, ib),
    );
    lemma_number_then(
        a.max_segment_size,
        indexing_tail(a, ia),
        b.max_segment_size,
        indexing_tail(b, ib),
    );
}

proof fn lemma_thresholds_of_surface(
    a: CollectionConfig,
    ia: Option<PayloadIndexSchema>,
    b: CollectionConfig,
    ib: Option<PayloadIndexSchema>,
)
    requires
        indexing_tail(a, ia) == indexing_tail(b, ib),
    ensures
        a.indexing_threshold_kb == b.indexing_threshold_kb,
        a.memmap_threshold_kb == b.memmap_threshold_kb,
        a.deferred_points_threshold_bytes == b.deferred_points_threshold_bytes,
        a.payload_storage_on_disk == b.payload_storage_on_disk,
        indexes_tail(a, ia) == indexes_tail(b, ib),
{
    lemma_full_marks();
    lemma_same_prefix(
        ",\"indexing_threshold_kb\":"@,
        text::decimal_text(a.indexing_threshold_kb as nat) + memmap_tail(a, ia),
        text::decimal_text(b.indexing_threshold_kb as nat) + memmap_tail(b, ib),
    );
    text::decimal_then(
        a.indexing_threshold_kb as nat,
        memmap_tail(a, ia),
        b.indexing_threshold_kb as nat,
        memmap_tail(b, ib),
    );
    lemma_same_prefix(
        ",\"memmap_threshold_kb\":"@,
        text::decimal_text(a.memmap_threshold_kb as nat) + deferred_tail(a, ia),
        text::decimal_text(b.memmap_threshold_kb as nat) + deferred_tail(b, ib),
    );
    text::decimal_then(
        a.memmap_threshold_kb as nat,
        deferred_tail(a, ia),
        b.memmap_threshold_kb as nat,
        deferred_tail(b, ib),
    );
    lemma_same_prefix(
        ",\"deferred_points_threshold_bytes\":"@,
        config::number_text(a.deferred_points_threshold_bytes) + payload_tail(a, ia),
        config::number_text(b.deferred_points_threshold_bytes) + payload_tail(b, ib),
    );
    lemma_number_then(
        a.deferred_points_threshold_bytes,
        payload_tail(a, ia),
        b.deferred_points_threshold_bytes,
        payload_tail(b, ib),
    );
    lemma_same_prefix(
        ",\"payload_storage_on_disk\":"@,
        config::bool_text(a.payload_storage_on_disk) + indexes_tail(a, ia),
        config::bool_text(b.payload_storage_on_disk) + indexes_tail(b, ib),
    );
    lemma_flag_then(
        Some(a.payload_storage_on_disk),
        indexes_tail(a, ia),
        Some(b.payload_storage_on_disk),
        indexes_tail(b, ib),
    );
}

/// Whether two documents agree on everything that decides whether the serving cluster rebuilds a
/// segment, or is baked into one.
pub open spec fn same_collection(
    a: CollectionConfig,
    ia: Option<PayloadIndexSchema>,
    b: CollectionConfig,
    ib: Option<PayloadIndexSchema>,
) -> bool {
    &&& a.shard_number == b.shard_number
    &&& config::sharding_of(a.sharding_method) == config::sharding_of(b.sharding_method)
    &&& a.hash_ring_shard_scale == b.hash_ring_shard_scale
    &&& a.default_segment_number == b.default_segment_number
    &&& a.max_segment_size == b.max_segment_size
    &&& a.indexing_threshold_kb == b.indexing_threshold_kb
    &&& a.memmap_threshold_kb == b.memmap_threshold_kb
    &&& a.deferred_points_threshold_bytes == b.deferred_points_threshold_bytes
    &&& a.payload_storage_on_disk == b.payload_storage_on_disk
    &&& same_indexes(ia, ib)
    &&& same_dense_vectors(a.dense_resolution@, b.dense_resolution@)
    &&& same_sparse_vectors(a.sparse_resolution@, b.sparse_resolution@)
}

proof fn lemma_same_surface_same_collection(
    a: CollectionConfig,
    ia: Option<PayloadIndexSchema>,
    b: CollectionConfig,
    ib: Option<PayloadIndexSchema>,
)
    requires
        config::full_surface(a, ia) == config::full_surface(b, ib),
    ensures
        same_collection(a, ia, b, ib),
{
    lemma_numbers_of_surface(a, ia, b, ib);
    lemma_thresholds_of_surface(a, ia, b, ib);
    lemma_same_prefix(
        ",\"payload_index\":"@,
        index_text(ia) + dense_tail(a),
        index_text(ib) + dense_tail(b),
    );
    lemma_indexes_then(ia, dense_tail(a), ib, dense_tail(b));
    lemma_same_prefix(
        ",\"dense_vectors\":"@,
        config::dense_surface(a.dense_resolution@) + sparse_tail_of(a),
        config::dense_surface(b.dense_resolution@) + sparse_tail_of(b),
    );
    lemma_dense_vectors_then(
        a.dense_resolution@,
        sparse_tail_of(a),
        b.dense_resolution@,
        sparse_tail_of(b),
    );
    lemma_same_prefix(
        ",\"sparse_vectors\":"@,
        config::sparse_surface(a.sparse_resolution@) + "}"@,
        config::sparse_surface(b.sparse_resolution@) + "}"@,
    );
    lemma_sparse_vectors_then(a.sparse_resolution@, "}"@, b.sparse_resolution@, "}"@);
}

proof fn lemma_same_dense_text(a: DenseResolution, b: DenseResolution)
    requires
        same_dense(a, b),
    ensures
        config::dense_text(a) == config::dense_text(b),
{
    if let (Some(g), Some(h)) = (a.hnsw, b.hnsw) {
        hnsw_text_tells_graphs_apart(g, h);
    }
    let none = Seq::<char>::empty();
    lemma_dense_shape(a, none);
    lemma_dense_shape(b, none);
    assert(config::dense_text(a) + none =~= config::dense_text(a));
    assert(config::dense_text(b) + none =~= config::dense_text(b));
}

proof fn lemma_same_collection_same_surface(
    a: CollectionConfig,
    ia: Option<PayloadIndexSchema>,
    b: CollectionConfig,
    ib: Option<PayloadIndexSchema>,
)
    requires
        same_collection(a, ia, b, ib),
    ensures
        config::full_surface(a, ia) == config::full_surface(b, ib),
{
    lemma_full_shape(a, ia);
    lemma_full_shape(b, ib);
    let (da, db) = (a.dense_resolution@, b.dense_resolution@);
    let (sa, sb) = (a.sparse_resolution@, b.sparse_resolution@);
    assert(config::dense_surface(da) == config::dense_surface(db)) by {
        assert forall|i: int| 0 <= i < da.len() implies (#[trigger] da[i]).0 == db[i].0
            && config::dense_text(da[i].1) == config::dense_text(db[i].1) by {
            lemma_same_dense_text(da[i].1, db[i].1);
        }
        assert(Seq::new(
            da.len(),
            |i: int| delimited::member_text(da[i].0, config::dense_text(da[i].1)),
        ) =~= Seq::new(
            db.len(),
            |i: int| delimited::member_text(db[i].0, config::dense_text(db[i].1)),
        ));
    }
    assert(config::sparse_surface(sa) == config::sparse_surface(sb)) by {
        assert(Seq::new(
            sa.len(),
            |i: int| delimited::member_text(sa[i].0, config::sparse_text(sa[i].1)),
        ) =~= Seq::new(
            sb.len(),
            |i: int| delimited::member_text(sb[i].0, config::sparse_text(sb[i].1)),
        ));
    }
    assert(index_text(ia) == index_text(ib)) by {
        if let (Some(s), Some(t)) = (ia, ib) {
            let named = Seq::new(
                s.schema@.len(),
                |i: int| (s.schema@[i].0, definition_text(s.schema@[i].1)),
            );
            lemma_index_surface(s.schema@, named);
            lemma_index_surface(t.schema@, named);
        }
    }
}

/// Whatever decides whether the serving cluster rebuilds a segment, or is baked into one, moves the
/// text that the full fingerprint is taken over, and nothing else does: two documents have the same
/// text exactly where they agree on all of it.
pub proof fn full_surface_tells_configs_apart(
    a: CollectionConfig,
    ia: Option<PayloadIndexSchema>,
    b: CollectionConfig,
    ib: Option<PayloadIndexSchema>,
)
    ensures
        config::full_surface(a, ia) == config::full_surface(b, ib) <==> same_collection(
            a,
            ia,
            b,
            ib,
        ),
{
    if config::full_surface(a, ia) == config::full_surface(b, ib) {
        lemma_same_surface_same_collection(a, ia, b, ib);
    }
    if same_collection(a, ia, b, ib) {
        lemma_same_collection_same_surface(a, ia, b, ib);
    }
}

/// Two texts have the same fingerprint exactly where they are the same, as long as SHA-256 gives
/// their bytes different digests where they differ.
pub proof fn fingerprints_tell_texts_apart(a: Seq<char>, b: Seq<char>)
    ensures
        ({
            let x = vstd::utf8::encode_utf8(a);
            let y = vstd::utf8::encode_utf8(b);
            (ids::sha256_digest(x) == ids::sha256_digest(y) ==> x == y) ==> (
            config::fingerprint_of(a) == config::fingerprint_of(b) <==> a == b)
        }),
{
    let x = vstd::utf8::encode_utf8(a);
    let y = vstd::utf8::encode_utf8(b);
    ids::hex_is_injective(ids::sha256_digest(x), ids::sha256_digest(y));
    vstd::utf8::encode_utf8_decode_utf8(a);
    vstd::utf8::encode_utf8_decode_utf8(b);
}

/// Whether two graphs differ at most in the number of threads that build them and in how their
/// placement is spelled.
pub open spec fn respelled_graph(a: Option<HnswConfig>, b: Option<HnswConfig>) -> bool {
    match (a, b) {
        (Some(g), Some(h)) => h == (HnswConfig {
            max_indexing_threads: h.max_indexing_threads,
            on_disk: h.on_disk,
            memory: h.memory,
            ..g
        }),
        (None, None) => true,
        _ => false,
    }
}

/// Whether two dense vectors differ at most in that.
pub open spec fn respelled_dense(a: DenseResolution, b: DenseResolution) -> bool {
    &&& a.plain@ == b.plain@
    &&& a.storage_on_disk == b.storage_on_disk
    &&& respelled_graph(a.hnsw, b.hnsw)
    &&& quantization_of(a) == quantization_of(b)
}

/// Whether two plain sparse configs differ at most in the placement that their index states.
pub open spec fn respelled_plain(a: JsonValue, b: JsonValue) -> bool {
    a == b || match (a, b) {
        (JsonValue::Object(m), JsonValue::Object(n)) => match (
            json::member(m, "index"@),
            json::member(n, "index"@),
        ) {
            (Some(JsonValue::Object(i)), Some(JsonValue::Object(j))) => {
                &&& n == json::with_member(m, "index"@, JsonValue::Object(j))
                &&& json::without_member(i, "memory"@) == json::without_member(j, "memory"@)
            },
            _ => false,
        },
        _ => false,
    }
}

/// Whether two definitions of an index differ at most in how their placement is spelled.
pub open spec fn respelled_index(a: FieldSchema, b: FieldSchema) -> bool {
    &&& a.placement == b.placement
    &&& a.expanded@ == b.expanded@ || match (a.expanded@, b.expanded@) {
        (JsonValue::Object(m), JsonValue::Object(n)) => json::without_member(
            json::without_member(m, "on_disk"@),
            "memory"@,
        ) == json::without_member(json::without_member(n, "on_disk"@), "memory"@),
        _ => false,
    }
}

/// Whether two documents differ at most in the number of indexing threads and in how the placements
/// of graphs, sparse vectors and payload indexes are spelled.
pub open spec fn respelled(
    a: CollectionConfig,
    ia: Option<PayloadIndexSchema>,
    b: CollectionConfig,
    ib: Option<PayloadIndexSchema>,
) -> bool {
    let (da, db) = (a.dense_resolution@, b.dense_resolution@);
    let (sa, sb) = (a.sparse_resolution@, b.sparse_resolution@);
    &&& b == (CollectionConfig {
        dense_resolution: b.dense_resolution,
        sparse_resolution: b.sparse_resolution,
        ..a
    })
    &&& da.len() == db.len()
    &&& forall|i: int|
        0 <= i < da.len() ==> (#[trigger] da[i]).0 == db[i].0 && respelled_dense(da[i].1, db[i].1)
    &&& sa.len() == sb.len()
    &&& forall|i: int|
        0 <= i < sa.len() ==> (#[trigger] sa[i]).0 == sb[i].0 && sa[i].1.memory_placement
            == sb[i].1.memory_placement && respelled_plain(sa[i].1.plain@, sb[i].1.plain@)
    &&& match (ia, ib) {
        (Some(s), Some(t)) => {
            &&& s.schema@.len() == t.schema@.len()
            &&& forall|i: int|
                0 <= i < s.schema@.len() ==> (#[trigger] s.schema@[i]).0 == t.schema@[i].0
                    && respelled_index(s.schema@[i].1, t.schema@[i].1)
        },
        (None, None) => true,
        _ => false,
    }
}

proof fn lemma_respelled_plain(a: JsonValue, b: JsonValue)
    requires
        respelled_plain(a, b),
    ensures
        config::unplaced(a) == config::unplaced(b),
{
    if a != b {
        let m = a->Object_0;
        let j = json::member(b->Object_0, "index"@)->0;
        let rest = JsonValue::Object(json::without_member(j->Object_0, "memory"@));
        json::lemma_with_member_twice(m, "index"@, j, rest);
    }
}

/// Neither the number of indexing threads nor the way a placement is spelled reaches the full
/// fingerprint: a segment that would not be rebuilt over them is not reported over them.
pub proof fn fingerprint_ignores_threads_and_spelling(
    a: CollectionConfig,
    ia: Option<PayloadIndexSchema>,
    b: CollectionConfig,
    ib: Option<PayloadIndexSchema>,
)
    requires
        respelled(a, ia, b, ib),
    ensures
        config::full_surface(a, ia) == config::full_surface(b, ib),
        config::fingerprint_of(config::full_surface(a, ia)) == config::fingerprint_of(
            config::full_surface(b, ib),
        ),
{
    let (sa, sb) = (a.sparse_resolution@, b.sparse_resolution@);
    assert forall|i: int| 0 <= i < sa.len() implies (#[trigger] sa[i]).0 == sb[i].0 && same_sparse(
        sa[i].1,
        sb[i].1,
    ) by {
        lemma_respelled_plain(sa[i].1.plain@, sb[i].1.plain@);
    }
    assert(same_collection(a, ia, b, ib));
    lemma_same_collection_same_surface(a, ia, b, ib);
}

/// A sparse index that states its placement, wherever among its members and whatever it states,
/// differs in no more than that from one that does not.
pub proof fn sparse_placement_may_stand_anywhere(
    members: Seq<(Seq<char>, JsonValue)>,
    index: Seq<(Seq<char>, JsonValue)>,
    memory: JsonValue,
    place: int,
)
    requires
        json::member(members, "index"@) == Some(JsonValue::Object(index)),
        0 <= place <= index.len(),
    ensures
        ({
            let stated = JsonValue::Object(index.insert(place, ("memory"@, memory)));
            let plain = JsonValue::Object(members);
            let spelled = JsonValue::Object(json::with_member(members, "index"@, stated));
            &&& respelled_plain(plain, spelled)
            &&& config::unplaced(plain) == config::unplaced(spelled)
        }),
{
    let stated = JsonValue::Object(index.insert(place, ("memory"@, memory)));
    let spelled = JsonValue::Object(json::with_member(members, "index"@, stated));
    json::lemma_with_member_twice(members, "index"@, stated, stated);
    json::lemma_without_inserted(index, "memory"@, memory, place);
    lemma_respelled_plain(JsonValue::Object(members), spelled);
}

/// A payload index that states its placement by the deprecated flag, by `memory` or by both,
/// wherever among its parameters, differs in no more than that from one that states it not at all.
pub proof fn index_placement_may_stand_anywhere(
    stated: FieldSchema,
    bare: FieldSchema,
    flag: JsonValue,
    flag_at: int,
    memory: JsonValue,
    memory_at: int,
)
    requires
        stated.placement == bare.placement,
        bare.expanded@ is Object,
        ({
            let parameters = bare.expanded@->Object_0;
            let by_flag = parameters.insert(flag_at, ("on_disk"@, flag));
            let by_memory = parameters.insert(memory_at, ("memory"@, memory));
            let both = by_flag.insert(memory_at, ("memory"@, memory));
            &&& 0 <= flag_at <= parameters.len()
            &&& 0 <= memory_at <= parameters.len()
            &&& !json::has_member(parameters, "on_disk"@)
            &&& !json::has_member(parameters, "memory"@)
            &&& stated.expanded@ == JsonValue::Object(by_flag) || stated.expanded@
                == JsonValue::Object(by_memory) || stated.expanded@ == JsonValue::Object(both)
        }),
    ensures
        respelled_index(stated, bare),
        payload_index::canonical_definition(stated) == payload_index::canonical_definition(bare),
{
    let parameters = bare.expanded@->Object_0;
    payload_index::placement_spellings_agree(
        parameters,
        flag,
        flag_at,
        memory,
        memory_at,
        bare.placement,
    );
    let m = json::without_member(
        json::without_member(stated.expanded@->Object_0, "on_disk"@),
        "memory"@,
    );
    let n = json::without_member(json::without_member(parameters, "on_disk"@), "memory"@);
    let last = ("memory"@, JsonValue::Text(bare.placement.name()));
    assert(m.push(last) == n.push(last));
    assert(m.push(last).drop_last() =~= m);
    assert(n.push(last).drop_last() =~= n);
}

/// The part fingerprint covers all of a document's routing: two documents whose texts for it are the
/// same have as many shards and virtual nodes, route by the same method, where leaving it out means
/// by point id, and read their ids out of the same column in the same format.
pub proof fn part_surface_covers_the_routing_of_a_document(
    a: CollectionConfig,
    mapping_a: Option<ParquetMapping>,
    b: CollectionConfig,
    mapping_b: Option<ParquetMapping>,
)
    ensures
        config::part_surface(config::routing_of(a, mapping_a)) == config::part_surface(
            config::routing_of(b, mapping_b),
        ) <==> {
            &&& a.shard_number == b.shard_number
            &&& a.hash_ring_shard_scale == b.hash_ring_shard_scale
            &&& a.sharding_method == Some(ShardingMethod::Custom) <==> b.sharding_method == Some(
                ShardingMethod::Custom,
            )
            &&& match (mapping_a, mapping_b) {
                (Some(m), Some(n)) => m.id_column@ == n.id_column@ && m.id_format == n.id_format,
                (None, None) => true,
                _ => false,
            }
        },
{
    let r = config::routing_of(a, mapping_a);
    let s = config::routing_of(b, mapping_b);
    if config::part_surface(r) == config::part_surface(s) {
        part_surface_tells_routings_apart(r, s);
    }
}

/// Both texts state the version of their own form first, so that texts of another form never match.
pub proof fn surfaces_state_their_version(
    routing: Routing,
    config: CollectionConfig,
    payload_index: Option<PayloadIndexSchema>,
)
    ensures
        text::begins(config::part_surface(routing), "{\"version\":3,\"shard_number\":"@),
        text::begins(
            config::full_surface(config, payload_index),
            "{\"version\":5,\"shard_number\":"@,
        ),
{
    let head = "{\"version\":3,\"shard_number\":"@;
    lemma_surface_shape(routing);
    let part = config::part_surface(routing);
    assert(part.take(head.len() as int) =~= head);
    let start = "{\"version\":5,\"shard_number\":"@;
    lemma_full_shape(config, payload_index);
    let full = config::full_surface(config, payload_index);
    assert(full.take(start.len() as int) =~= start);
}

/// Leaving the stated placement out of a sparse vector's plain config leaves everything else of it as
/// it is.
pub proof fn only_the_stated_placement_is_left_out(plain: JsonValue, key: Seq<char>)
    ensures
        key != "index"@ ==> json::get_member(config::unplaced(plain), key) == json::get_member(
            plain,
            key,
        ),
        json::get_member(plain, "index"@) matches Some(JsonValue::Object(_)) ==> {
            let before = json::get_member(plain, "index"@)->0;
            let after = json::get_member(config::unplaced(plain), "index"@)->0;
            &&& json::get_member(config::unplaced(plain), "index"@) is Some
            &&& json::get_member(after, "memory"@) is None
            &&& key != "memory"@ ==> json::get_member(after, key) == json::get_member(before, key)
        },
        !(json::get_member(plain, "index"@) matches Some(JsonValue::Object(_)))
            ==> config::unplaced(plain) == plain,
{
    match plain {
        JsonValue::Object(members) => match json::member(members, "index"@) {
            Some(JsonValue::Object(index)) => {
                let kept = JsonValue::Object(json::without_member(index, "memory"@));
                json::storing_a_member_leaves_the_others(members, "index"@, kept, key);
                json::storing_a_member_leaves_the_others(members, "index"@, kept, "index"@);
                json::removing_a_member_leaves_the_others(index, "memory"@, key);
                json::removing_a_member_leaves_the_others(index, "memory"@, "memory"@);
            },
            _ => {},
        },
        _ => {},
    }
}

} // verus!
