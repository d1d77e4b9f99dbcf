//! Part files: framing, records, encodings and projections.
use half::f16;
use shard_builder::commit::{commit_steps, removes_temp, CommitStep};
use shard_builder::dense_codec::{DenseBytes, DenseEncoding, VectorStorageDatatype};
use shard_builder::frames::{
    PartReader, PartWriter, ReadEvent, WriteFault, FORMAT_VERSION, MAX_RECORD_BYTES,
};
use shard_builder::json::Json;
use shard_builder::names::NameMap;
use shard_builder::partfile::{
    is_temp_for, meta_path, unique_tmp_path, DenseSpec, PartHeader, PartManifest, PartProjection,
    SparseSpec, WantedFields,
};
use shard_builder::records::{
    PartRecord, Payload, Point, PointId, PointVectors, SparseVector, Vector,
};

fn table<T>(entries: Vec<(&str, T)>) -> NameMap<T> {
    let mut table = NameMap::new();
    for (name, value) in entries {
        table.insert(name.to_string(), value);
    }
    table
}

fn narrow(bits: u32) -> u16 {
    f16::from_f32(f32::from_bits(bits)).to_bits()
}

fn widen(bits: u16) -> u32 {
    f16::from_bits(bits).to_f32().to_bits()
}

fn bits(values: &[f32]) -> Vec<u32> {
    values.iter().map(|value| value.to_bits()).collect()
}

fn floats(values: &[u32]) -> Vec<f32> {
    values.iter().map(|bits| f32::from_bits(*bits)).collect()
}

// ----- Framing -----

fn header(fingerprint: &str) -> PartHeader {
    PartHeader {
        part_fingerprint: fingerprint.to_string(),
        file_id: "abc123".to_string(),
        source_path: "input/data-0001.jsonl".to_string(),
        shard_id: 3,
        manifest: manifest(DenseEncoding::F16),
    }
}

fn manifest(encoding: DenseEncoding) -> PartManifest {
    PartManifest {
        dense: table(vec![("dense", DenseSpec { encoding, dim: 768, source: None })]),
        sparse: table(vec![("sparse", SparseSpec { source: None })]),
        payload: None,
    }
}

/// A part whose header is written as its fingerprint alone.
fn write_part(fingerprint: &str, records: &[Vec<u8>]) -> (Vec<u8>, u64) {
    let (mut writer, mut bytes) =
        PartWriter::create(fingerprint.as_bytes()).unwrap_or_else(|fault| panic!("{}", fault.message()));
    for record in records {
        let framed = writer.append(record).unwrap_or_else(|fault| panic!("{}", fault.message()));
        bytes.extend(framed);
    }
    let meta = writer.commit(bytes.len() as u64);
    assert_eq!(meta.bytes, bytes.len() as u64);
    (bytes, meta.records)
}

/// Read a part to its end: its records, or the message of the first fault behind those.
fn read_part(bytes: &[u8], expected: &str) -> (Vec<Vec<u8>>, Option<String>) {
    let mut reader = PartReader::open(expected);
    let mut at = 0;
    let mut records = Vec::new();
    loop {
        let Some(wanted) = reader.wanted() else {
            return (records, None);
        };
        let end = bytes.len().min(at + wanted);
        let got = bytes[at..end].to_vec();
        at = end;
        match reader.feed(got) {
            ReadEvent::More => {}
            ReadEvent::Header(bytes) => {
                let found = header(&String::from_utf8(bytes).unwrap());
                if let Err(mismatch) = reader.accept(&found) {
                    return (records, Some(mismatch.message("part")));
                }
            }
            ReadEvent::Record(bytes) => records.push(bytes),
            ReadEvent::End => return (records, None),
            ReadEvent::Fault(fault) => return (records, Some(fault.message("part"))),
        }
    }
}

fn record_bytes(count: u8) -> Vec<Vec<u8>> {
    (0..count).map(|id| vec![id; 9]).collect()
}

#[test]
fn round_trips_points() {
    let (bytes, count) = write_part("fp", &record_bytes(100));
    assert_eq!(count, 100);
    let (seen, fault) = read_part(&bytes, "fp");
    assert_eq!(fault, None);
    assert_eq!(seen, record_bytes(100));

    for id in [0, 99] {
        let record = PartRecord::from_point(point(id), &encodings(), narrow)
            .unwrap_or_else(|fault| panic!("{}", fault.message()));
        let got = record
            .to_point(&keep_all(manifest(DenseEncoding::F16)), widen)
            .unwrap_or_else(|fault| panic!("{}", fault.message("point")));
        let PointVectors::Named(vectors) = &got.vector else {
            panic!("expected named vectors");
        };
        let Vector::Dense(values) = vectors.get("dense").unwrap() else {
            panic!("expected a dense vector");
        };
        assert_eq!(got.id, PointId::NumId(id));
        let want: Vec<f32> =
            [0.1f32, 0.2, 0.3].iter().map(|v| f16::from_f32(*v).to_f32()).collect();
        assert_eq!(floats(values), want);
    }
}

#[test]
fn round_trips_payloads_and_named_vectors() {
    let id = PointId::Uuid(0x550e8400_e29b_41d4_a716_446655440000);
    let payload = || {
        vec![
            ("city".to_string(), Json::Text("Berlin".to_string())),
            ("count".to_string(), Json::Unsigned(42)),
        ]
    };
    let original = Point {
        id,
        vector: PointVectors::Named(table(vec![("dense", Vector::Dense(bits(&[1.0, 2.0])))])),
        payload: Some(Payload(payload())),
    };
    let record = PartRecord::from_point(original, &encodings(), narrow)
        .unwrap_or_else(|fault| panic!("{}", fault.message()));
    let read_back = record
        .to_point(&keep_all(manifest(DenseEncoding::F16)), widen)
        .unwrap_or_else(|fault| panic!("{}", fault.message("point")));
    assert_eq!(read_back.id, id);
    let PointVectors::Named(vectors) = &read_back.vector else {
        panic!("expected named vectors");
    };
    assert!(matches!(vectors.get("dense"), Some(Vector::Dense(v)) if floats(v) == [1.0, 2.0]));
    assert_eq!(
        Json::Object(read_back.payload.unwrap().0).to_text(),
        Json::Object(payload()).to_text(),
    );
}

#[test]
fn refuses_a_part_written_under_a_different_config() {
    let (bytes, _) = write_part("old-fingerprint", &record_bytes(1));
    let (_, fault) = read_part(&bytes, "new-fingerprint");
    let message = fault.expect("a part of another config must be refused");
    assert!(message.contains("incompatible collection config"), "{message}");
    assert!(message.contains("old-fingerprint"), "{message}");
    assert!(message.contains("new-fingerprint"), "{message}");
}

#[test]
fn rejects_a_non_part_file() {
    let (_, fault) = read_part(b"just some bytes that are long enough", "fp");
    let message = fault.expect("no part");
    assert!(message.contains("bad magic"), "{message}");

    let (_, fault) = read_part(b"abc", "fp");
    assert!(fault.is_some(), "too short for a part");

    let (mut bytes, _) = write_part("fp", &[]);
    let version = bytes.iter().position(|byte| *byte == FORMAT_VERSION).unwrap();
    bytes[version] = FORMAT_VERSION + 1;
    let message = read_part(&bytes, "fp").1.expect("another version");
    assert!(message.contains("version"), "{message}");
}

#[test]
fn detects_a_truncated_record() {
    let (bytes, _) = write_part("fp", &record_bytes(10));
    let (seen, fault) = read_part(&bytes[..bytes.len() - 5], "fp");
    assert_eq!(seen.len(), 9);
    let message = fault.expect("truncated file must not read as a clean EOF");
    assert!(message.contains("truncated"), "{message}");
}

#[test]
fn detects_a_truncated_length_prefix() {
    let boundary = write_part("fp", &record_bytes(1)).0.len();
    let (bytes, _) = write_part("fp", &record_bytes(2));
    for left in 1..4 {
        let (seen, fault) = read_part(&bytes[..boundary + left], "fp");
        assert_eq!(seen.len(), 1, "first record intact");
        let message = fault.expect("a truncated length prefix must not read as a clean EOF");
        assert!(message.contains("truncated"), "{message}");
    }
    let (seen, fault) = read_part(&bytes[..boundary], "fp");
    assert_eq!((seen.len(), fault), (1, None), "a whole number of records is a clean end");
}

#[test]
fn concurrent_writers_do_not_interleave() {
    let final_name = "part_abc0000000000000";
    let a_temp = unique_tmp_path(final_name, 41, 0);
    let b_temp = unique_tmp_path(final_name, 41, 1);
    assert_ne!(a_temp, b_temp, "temps must be process/attempt-unique");
    assert_ne!(a_temp, unique_tmp_path(final_name, 42, 0));

    let (mut a, mut a_bytes) = PartWriter::create(b"fp").unwrap_or_else(|_| panic!());
    let (mut b, mut b_bytes) = PartWriter::create(b"fp").unwrap_or_else(|_| panic!());
    for record in record_bytes(5) {
        a_bytes.extend(a.append(&record).unwrap_or_else(|_| panic!()));
        b_bytes.extend(b.append(&record).unwrap_or_else(|_| panic!()));
    }
    for bytes in [&a_bytes, &b_bytes] {
        let (seen, fault) = read_part(bytes, "fp");
        assert_eq!((seen.len(), fault), (5, None));
    }
    for temp in [&a_temp, &b_temp] {
        assert!(is_temp_for(temp, final_name));
        assert!(!is_temp_for(temp, "part_def0000000000000"));
    }
    assert!(!is_temp_for(final_name, final_name));
    assert_eq!(meta_path("part_a"), "part_a.meta");
}

#[test]
fn empty_part_file_reads_as_zero_points() {
    let (bytes, count) = write_part("fp", &[]);
    assert_eq!(count, 0);
    assert_eq!(read_part(&bytes, "fp"), (vec![], None));
}

#[test]
fn a_record_over_the_limit_is_neither_written_nor_read() {
    let (mut writer, mut bytes) = PartWriter::create(b"fp").unwrap_or_else(|_| panic!());
    let too_long = vec![0; MAX_RECORD_BYTES as usize + 1];
    match writer.append(&too_long) {
        Ok(_) => panic!("over the limit"),
        Err(fault) => {
            assert!(matches!(fault, WriteFault::OverLimit(n) if n == MAX_RECORD_BYTES + 1));
        }
    }
    assert_eq!(writer.records, 0);
    bytes.extend((MAX_RECORD_BYTES + 1).to_le_bytes());
    let message = read_part(&bytes, "fp").1.expect("over the limit");
    assert!(message.contains(&format!("{}", MAX_RECORD_BYTES + 1)), "{message}");
}

/// A frame is the length in four little-endian bytes, and the record.
#[test]
fn a_frame_is_a_length_and_a_record() {
    let (mut writer, bytes) = PartWriter::create(b"fp").unwrap_or_else(|_| panic!());
    assert!(bytes.ends_with(&[2, 0, 0, 0, b'f', b'p']), "{bytes:?}");
    let framed = writer.append(&[7; 258]).unwrap_or_else(|_| panic!());
    assert_eq!(&framed[..4], &[2, 1, 0, 0]);
    assert_eq!(&framed[4..], &[7; 258]);
    assert_eq!(writer.records, 1);
}

// ----- Dense encodings -----

fn encode(encoding: DenseEncoding, values: &[f32]) -> DenseBytes {
    encoding.encode(&bits(values), narrow)
}

fn decode(encoding: DenseEncoding, bytes: &DenseBytes) -> Vec<f32> {
    match encoding.decode(bytes, widen) {
        Ok(values) => floats(&values),
        Err(fault) => panic!("{}", fault.message()),
    }
}

#[test]
fn f16_round_trips_exactly_for_values_that_came_from_f16() {
    let original: Vec<f32> = (0..64).map(|i| f16::from_f32(i as f32 / 100.0).to_f32()).collect();
    let encoded = encode(DenseEncoding::F16, &original);
    assert_eq!(encoded.0.len(), 64 * 2, "two bytes per element");
    assert_eq!(decode(DenseEncoding::F16, &encoded), original, "f16 round trip must be exact");
}

#[test]
fn f32_round_trips_exactly() {
    let original = vec![0.1f32, -2.5, 3.75, f32::MIN_POSITIVE, 1e30];
    let encoded = encode(DenseEncoding::F32, &original);
    assert_eq!(encoded.0.len(), original.len() * 4);
    assert_eq!(decode(DenseEncoding::F32, &encoded), original);
    let expected: Vec<u8> = original.iter().flat_map(|value| value.to_le_bytes()).collect();
    assert_eq!(encoded.0, expected);
}

#[test]
fn f16_halves_the_bytes() {
    let values = vec![1.0f32; 768];
    assert_eq!(encode(DenseEncoding::F32, &values).0.len(), 3072);
    assert_eq!(encode(DenseEncoding::F16, &values).0.len(), 1536);
    assert_eq!(DenseEncoding::F32.bytes_per_element(), 4);
    assert_eq!(DenseEncoding::F16.bytes_per_element(), 2);
}

#[test]
fn only_float16_selects_the_narrow_encoding() {
    assert_eq!(
        DenseEncoding::for_datatype(Some(VectorStorageDatatype::Float16)),
        DenseEncoding::F16,
    );
    for datatype in [
        None,
        Some(VectorStorageDatatype::Float32),
        Some(VectorStorageDatatype::Uint8),
        Some(VectorStorageDatatype::Turbo4),
    ] {
        assert_eq!(DenseEncoding::for_datatype(datatype), DenseEncoding::F32, "{datatype:?}");
    }
}

#[test]
fn rejects_a_length_that_does_not_match_the_encoding() {
    for encoding in [DenseEncoding::F16, DenseEncoding::F32] {
        match encoding.decode(&DenseBytes(vec![0, 1, 2]), widen) {
            Ok(_) => panic!("three bytes are no whole elements"),
            Err(fault) => {
                let message = fault.message();
                assert!(message.contains("not a multiple"), "{message}");
            }
        }
    }
}

// ----- Records and projections -----

fn encodings() -> NameMap<DenseEncoding> {
    table(vec![("dense", DenseEncoding::F16)])
}

fn point(id: u64) -> Point {
    Point {
        id: PointId::NumId(id),
        vector: PointVectors::Named(table(vec![(
            "dense",
            Vector::Dense(bits(&[0.1, 0.2, 0.3])),
        )])),
        payload: None,
    }
}

fn wants(dense: &[(&str, usize)], sparse: &[&str], payload: Option<&[&str]>) -> WantedFields {
    WantedFields {
        dense: table(dense.to_vec()),
        sparse: table(sparse.iter().map(|name| (*name, ())).collect()),
        payload: payload.map(|keys| table(keys.iter().map(|key| (*key, ())).collect())),
        dense_sources: NameMap::new(),
        sparse_sources: NameMap::new(),
    }
}

fn head_with(manifest: PartManifest) -> PartHeader {
    PartHeader {
        part_fingerprint: "fp".to_string(),
        file_id: "abc123".to_string(),
        source_path: "input/data.parquet".to_string(),
        shard_id: 3,
        manifest,
    }
}

fn resolve(head: &PartHeader, wanted: &WantedFields) -> PartProjection {
    match PartProjection::resolve(head, wanted) {
        Ok(projection) => projection,
        Err(fault) => panic!("{}", fault.message("p")),
    }
}

fn resolve_refusal(head: &PartHeader, wanted: &WantedFields) -> String {
    match PartProjection::resolve(head, wanted) {
        Ok(_) => panic!("should be refused"),
        Err(fault) => fault.message("p"),
    }
}

fn keep_all(manifest: PartManifest) -> PartProjection {
    let wanted = wants(&[("dense", 768)], &["sparse"], None);
    resolve(&head_with(manifest), &wanted)
}

/// Two dense vectors, one sparse vector and three columns.
fn rich_manifest() -> PartManifest {
    let spec = |encoding, dim, source: &str| DenseSpec {
        encoding,
        dim,
        source: Some(source.to_string()),
    };
    PartManifest {
        dense: table(vec![
            ("dense", spec(DenseEncoding::F16, 768, "dense_embedding")),
            ("extra", spec(DenseEncoding::F32, 4, "extra_embedding")),
        ]),
        sparse: table(vec![(
            "sparse",
            SparseSpec { source: Some("sparse_embedding".to_string()) },
        )]),
        payload: Some(vec!["text".to_string(), "url".to_string(), "dump".to_string()]),
    }
}

#[test]
fn a_projection_can_drop_vectors_and_payload_columns() {
    let head = head_with(rich_manifest());
    let projection = resolve(&head, &wants(&[("dense", 768)], &[], Some(&["url"])));
    assert_eq!(projection.dropped_dense, ["extra"]);
    assert_eq!(projection.dropped_sparse, ["sparse"]);
    assert_eq!(
        projection.dropped_payload,
        ["dump", "text"],
        "dropped payload keys are reported so a downselect is visible",
    );
    assert!(!projection.is_identity());
    assert!(projection.summary().contains("extra"));
}

#[test]
fn a_projection_that_keeps_everything_is_the_identity() {
    let head = head_with(rich_manifest());
    let wanted =
        wants(&[("dense", 768), ("extra", 4)], &["sparse"], Some(&["text", "url", "dump"]));
    let projection = resolve(&head, &wanted);
    assert!(projection.is_identity(), "{:?}", projection.summary());
}

/// A summary names everything that is dropped, quoted, on one line, and says nothing of nothing.
#[test]
fn a_summary_names_what_is_dropped_on_one_line() {
    let head = head_with(rich_manifest());
    let dropped = resolve(&head, &wants(&[("dense", 768)], &[], Some(&["url"])));
    assert_eq!(
        dropped.summary(),
        r#"dense ["extra"], sparse ["sparse"], payload ["dump", "text"]"#,
    );
    let odd = PartProjection {
        dense: NameMap::new(),
        sparse: NameMap::new(),
        payload: None,
        dropped_dense: vec![],
        dropped_sparse: vec!["two\nlines\r".to_string(), "a \"quote\"".to_string()],
        dropped_payload: vec![],
    };
    assert_eq!(odd.summary(), r#"sparse ["two\nlines\r", "a \"quote\""]"#);
    let wanted =
        wants(&[("dense", 768), ("extra", 4)], &["sparse"], Some(&["text", "url", "dump"]));
    assert_eq!(resolve(&head, &wanted).summary(), "");
}

/// The bytes are durable before the part has its name, and the sidecar comes last.
#[test]
fn a_part_is_committed_in_order() {
    assert_eq!(
        commit_steps(),
        [
            CommitStep::Flush,
            CommitStep::SyncFile,
            CommitStep::Rename,
            CommitStep::SyncDir,
            CommitStep::Sidecar,
        ],
    );
    assert!(removes_temp(false, true));
    assert!(!removes_temp(true, true) && !removes_temp(false, false));
}

/// A file that ends within its header is refused.
#[test]
fn detects_a_truncated_header() {
    let (bytes, _) = write_part("fp", &record_bytes(1));
    for cut in [9, 11, 13] {
        let message = read_part(&bytes[..cut], "fp").1.expect("a truncated header");
        assert_eq!(message, "failed to fill whole buffer");
    }
}

#[test]
fn projecting_a_record_omits_the_dropped_fields() {
    let head = head_with(PartManifest {
        dense: table(vec![(
            "dense",
            DenseSpec { encoding: DenseEncoding::F16, dim: 2, source: None },
        )]),
        sparse: table(vec![("sparse", SparseSpec { source: None })]),
        payload: Some(vec!["keep".to_string(), "drop".to_string()]),
    });
    let record = PartRecord {
        id: PointId::NumId(7),
        dense: table(vec![("dense", encode(DenseEncoding::F16, &[1.0, 2.0]))]),
        sparse: table(vec![(
            "sparse",
            SparseVector { indices: vec![1], values: bits(&[1.0]) },
        )]),
        payload: Some(Payload(vec![
            ("keep".to_string(), Json::Unsigned(1)),
            ("drop".to_string(), Json::Unsigned(2)),
        ])),
    };
    let projection = resolve(&head, &wants(&[("dense", 2)], &[], Some(&["keep"])));

    // The edge route and the bulk route project alike.
    let seen = record
        .to_point(&projection, widen)
        .unwrap_or_else(|fault| panic!("{}", fault.message("7")));
    let PointVectors::Named(vectors) = &seen.vector else {
        panic!("expected named vectors");
    };
    assert_eq!(vectors.names(), ["dense"]);
    assert_eq!(Json::Object(seen.payload.unwrap().0).to_text(), r#"{"keep":1}"#);

    let point = record
        .into_point_to_insert(&projection, 1, widen)
        .unwrap_or_else(|fault| panic!("{}", fault.message("7")));
    assert_eq!(point.vectors.names(), ["dense"], "sparse must not reach the point");
    assert!(
        matches!(point.vectors.get("dense"), Some(Vector::Dense(v)) if floats(v) == [1.0, 2.0]),
    );
    assert_eq!((point.external_id, point.version), (PointId::NumId(7), 1));
    let payload = point.payload.expect("payload kept");
    assert_eq!(Json::Object(payload.0).to_text(), r#"{"keep":1}"#);
}

#[test]
fn asking_for_something_the_part_lacks_is_refused_by_name() {
    let head = head_with(rich_manifest());
    let message = resolve_refusal(&head, &wants(&[("dense", 768), ("nope", 16)], &[], None));
    assert!(message.contains("'nope'"), "{message}");
    assert!(message.contains("re-scatter"), "{message}");

    let message = resolve_refusal(&head, &wants(&[("dense", 768)], &["absent"], None));
    assert!(message.contains("'absent'"));

    let wanted = wants(&[("dense", 768)], &[], Some(&["url", "language"]));
    let message = resolve_refusal(&head, &wanted);
    assert!(message.contains("language"), "{message}");
    assert!(message.contains("cannot add columns"), "{message}");
}

#[test]
fn a_dimensionality_change_is_refused() {
    let head = head_with(rich_manifest());
    let message = resolve_refusal(&head, &wants(&[("dense", 512)], &[], None));
    assert!(message.contains("768"), "{message}");
    assert!(message.contains("512"), "{message}");
}

#[test]
fn remapping_a_vector_to_a_different_column_is_refused() {
    let head = head_with(rich_manifest());
    let mut wanted = wants(&[("dense", 768)], &[], None);
    wanted.dense_sources.insert("dense".to_string(), "other_embedding".to_string());
    let message = resolve_refusal(&head, &wanted);
    assert!(message.contains("dense_embedding"), "{message}");
    assert!(message.contains("other_embedding"), "{message}");

    let mut same = wants(&[("dense", 768)], &[], None);
    same.dense_sources.insert("dense".to_string(), "dense_embedding".to_string());
    resolve(&head, &same);

    let mut sparse = wants(&[("dense", 768)], &["sparse"], None);
    sparse.sparse_sources.insert("sparse".to_string(), "other".to_string());
    let message = resolve_refusal(&head, &sparse);
    assert!(message.contains("sparse_embedding"), "{message}");
}

#[test]
fn an_unenumerated_payload_is_not_subset_checked() {
    let mut manifest = rich_manifest();
    manifest.payload = None;
    let head = head_with(manifest);
    let projection = resolve(&head, &wants(&[("dense", 768)], &[], Some(&["anything"])));
    assert!(projection.dropped_payload.is_empty());
}

#[test]
fn f16_parts_are_much_smaller_than_f32_parts() {
    let mut sizes = Vec::new();
    for encoding in [DenseEncoding::F32, DenseEncoding::F16] {
        let records: Vec<Vec<u8>> = (0..200)
            .map(|id| {
                let mut wide = point(id);
                wide.vector = PointVectors::Named(table(vec![(
                    "dense",
                    Vector::Dense(bits(&[0.5; 768])),
                )]));
                let encodings = table(vec![("dense", encoding)]);
                let record = PartRecord::from_point(wide, &encodings, narrow)
                    .unwrap_or_else(|fault| panic!("{}", fault.message()));
                record.dense.get("dense").unwrap().0.clone()
            })
            .collect();
        sizes.push(write_part("fp", &records).0.len());
    }
    let (f32_size, f16_size) = (sizes[0], sizes[1]);
    assert!(
        f16_size * 3 / 2 < f32_size,
        "f16 part ({f16_size}) should be far below f32 ({f32_size})",
    );
}

#[test]
fn a_multivector_is_refused_and_an_unnamed_vector_has_no_name() {
    let mut multi = point(1);
    multi.vector = PointVectors::MultiDense;
    assert!(PartRecord::from_point(multi, &encodings(), narrow).is_err());

    let mut named = point(1);
    named.vector = PointVectors::Named(table(vec![("m", Vector::MultiDense)]));
    match PartRecord::from_point(named, &encodings(), narrow) {
        Ok(_) => panic!("a multivector has no encoding"),
        Err(fault) => assert!(fault.message().contains("m"), "{}", fault.message()),
    }

    let mut single = point(1);
    single.vector = PointVectors::Single(bits(&[1.0]));
    let record = PartRecord::from_point(single, &encodings(), narrow)
        .unwrap_or_else(|fault| panic!("{}", fault.message()));
    assert_eq!(record.dense.names(), [""]);
    assert_eq!(record.dense.get("").unwrap().0, 1.0f32.to_le_bytes(), "no encoding: full width");
}

#[test]
fn a_vector_of_another_width_is_named() {
    let record = PartRecord {
        id: PointId::NumId(7),
        dense: table(vec![("dense", DenseBytes(vec![1, 2, 3]))]),
        sparse: NameMap::new(),
        payload: None,
    };
    match record.to_point(&keep_all(manifest(DenseEncoding::F16)), widen) {
        Ok(_) => panic!("three bytes are no whole elements"),
        Err(fault) => {
            let message = fault.message("7");
            assert!(message.contains("dense") && message.contains("7"), "{message}");
        }
    }
}
