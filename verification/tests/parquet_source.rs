//! Reading rows of a Parquet file into points.
use half::f16;
use shard_builder::json::Json;
use shard_builder::names::NameMap;
use shard_builder::parquet_source::{
    arrow_value_to_json, default_batch_size, default_indices_field, default_values_field,
    describe, read_dense, read_id, read_payload, read_row, read_sparse, require_integer_format,
    sparse_lists, Cell, ElementKind, IdFormat, ListCell, ParquetMapping, ParquetSource, SourceStep,
    SparseMapping, TypedCell,
};
use shard_builder::records::{Point, PointId, PointVectors, SparseVector, Vector};

fn typed(data_type: &str, cell: Cell) -> TypedCell {
    TypedCell { data_type: data_type.to_string(), cell }
}

fn text(value: &str) -> TypedCell {
    typed("Utf8", Cell::Text(value.to_string()))
}

fn list(element: ElementKind, element_type: &str, items: Vec<Cell>) -> TypedCell {
    typed(
        "List",
        Cell::List(ListCell { element, element_type: element_type.to_string(), items }),
    )
}

fn halves(values: &[f32]) -> TypedCell {
    let items = values
        .iter()
        .map(|value| Cell::Float16(f16::from_f32(*value).to_f32().to_bits()))
        .collect();
    list(ElementKind::Float16, "Float16", items)
}

fn singles(values: &[f32]) -> TypedCell {
    let items = values
        .iter()
        .map(|value| Cell::Float32(value.to_bits(), Some(format!("{value}"))))
        .collect();
    list(ElementKind::Float32, "Float32", items)
}

fn indices(values: &[u32]) -> TypedCell {
    let items = values.iter().map(|value| Cell::UInt32(*value)).collect();
    list(ElementKind::UInt32, "UInt32", items)
}

fn sparse_cell(indices: TypedCell, values: TypedCell) -> TypedCell {
    typed(
        "Struct",
        Cell::Struct(vec![("indices".to_string(), indices), ("values".to_string(), values)]),
    )
}

/// One row of a corpus: a UUID id, a half-precision dense vector, a sparse vector of two entries,
/// and two payload columns.
fn corpus_row(row: usize, dim: usize) -> Vec<(String, TypedCell)> {
    let dense: Vec<f32> = (row * dim..(row + 1) * dim).map(|i| i as f32 / 100.0).collect();
    let sparse = sparse_cell(
        indices(&[row as u32 * 2, row as u32 * 2 + 1]),
        singles(&[0.5, 0.25]),
    );
    vec![
        ("id".to_string(), text(&format!("550e8400-e29b-41d4-a716-4466554400{row:02}"))),
        ("dense_embedding".to_string(), halves(&dense)),
        ("sparse_embedding".to_string(), sparse),
        ("url".to_string(), text(&format!("https://example.test/{row}"))),
        ("tokens".to_string(), typed("Int64", Cell::Int64(row as i64))),
    ]
}

const CORPUS_FIELDS: [&str; 5] =
    ["id", "dense_embedding", "sparse_embedding", "url", "tokens"];

fn corpus_mapping(batch_size: usize) -> ParquetMapping {
    let mut dense_vectors = NameMap::new();
    dense_vectors.insert("dense".to_string(), "dense_embedding".to_string());
    let mut sparse_vectors = NameMap::new();
    sparse_vectors.insert(
        "sparse".to_string(),
        SparseMapping {
            column: "sparse_embedding".to_string(),
            indices_field: "indices".to_string(),
            values_field: "values".to_string(),
        },
    );
    ParquetMapping {
        id_column: "id".to_string(),
        id_format: IdFormat::Uuid,
        dense_vectors,
        sparse_vectors,
        payload_columns: vec!["url".to_string(), "tokens".to_string()],
        batch_size,
    }
}

fn names(list: &[&str]) -> Vec<String> {
    list.iter().map(|name| name.to_string()).collect()
}

/// Read a file of rows, decoding batches of the mapping's size.
fn collect(
    rows: usize,
    row: impl Fn(usize) -> Vec<(String, TypedCell)>,
    fields: &[&str],
    mapping: ParquetMapping,
) -> Vec<Point> {
    let batch_size = mapping.batch_size;
    let (mut source, positions) =
        ParquetSource::open("corpus.parquet", &names(fields), mapping).unwrap();
    let mut decoded = 0;
    let mut first_of_batch = 0;
    let mut points = Vec::new();
    loop {
        match source.next_point() {
            SourceStep::DecodeBatch => {
                first_of_batch = decoded;
                let size = batch_size.min(rows - decoded);
                decoded += size;
                if !source.advance_batch(if size > 0 { Some(size) } else { None }) {
                    assert_eq!(source.rows_read, rows as u64);
                    return points;
                }
            }
            SourceStep::ReadRow(at) => {
                let all = row(first_of_batch + at);
                let mut columns = Vec::new();
                for (position, column) in all.into_iter().enumerate() {
                    if positions.contains(&position) {
                        columns.push(column);
                    }
                }
                match read_row(&columns, &source.mapping, &built(&columns, &source.mapping)) {
                    Ok(point) => points.push(point),
                    Err(why) => panic!("{}", source.row_message(&why)),
                }
            }
        }
    }
}

fn vectors(point: &Point) -> &NameMap<Vector> {
    match &point.vector {
        PointVectors::Named(vectors) => vectors,
        _ => panic!("expected named vectors"),
    }
}

fn dense(point: &Point) -> Vec<f32> {
    match vectors(point).get("dense") {
        Some(Vector::Dense(values)) => values.iter().map(|bits| f32::from_bits(*bits)).collect(),
        _ => panic!("expected a dense vector"),
    }
}

#[test]
fn reads_the_real_corpus_shape() {
    let points = collect(20, |i| corpus_row(i, 4), &CORPUS_FIELDS, corpus_mapping(8));
    assert_eq!(points.len(), 20);

    let first = &points[0];
    assert!(matches!(first.id, PointId::Uuid(_)), "UUID ids");
    assert_eq!(dense(first).len(), 4);
    match vectors(first).get("sparse") {
        Some(Vector::Sparse(sparse)) => {
            assert_eq!(sparse.indices, vec![0, 1]);
            let values: Vec<f32> = sparse.values.iter().map(|bits| f32::from_bits(*bits)).collect();
            assert_eq!(values, vec![0.5, 0.25]);
        }
        _ => panic!("expected a sparse vector"),
    }
    let payload = first.payload.as_ref().expect("payload columns were mapped");
    let object = Json::Object(vec![
        ("url".to_string(), Json::Text("https://example.test/0".to_string())),
        ("tokens".to_string(), Json::Unsigned(0)),
    ]);
    for (name, value) in &payload.0 {
        assert!(value.same(object.get(name).unwrap()), "{name}");
    }
    assert_eq!(payload.0.len(), 2);
}

#[test]
fn streams_across_batch_boundaries() {
    let read = |batch_size| -> Vec<String> {
        collect(50, |i| corpus_row(i, 2), &CORPUS_FIELDS, corpus_mapping(batch_size))
            .iter()
            .map(|point| format!("{:?} {:?}", point.id, dense(point)))
            .collect()
    };
    let points = read(8);
    assert_eq!(points.len(), 50);
    let single = read(1);
    let whole = read(4096);
    assert_eq!(single.len(), 50);
    assert_eq!(single, whole, "batch size must not affect the points read");
    assert_eq!(points, whole);
}

#[test]
fn float16_is_converted_without_loss() {
    let points = collect(3, |i| corpus_row(i, 4), &CORPUS_FIELDS, corpus_mapping(8));
    for (index, actual) in dense(&points[0]).iter().enumerate() {
        let expected = f16::from_f32(index as f32 / 100.0).to_f32();
        assert_eq!(*actual, expected, "element {index}");
    }
}

#[test]
fn unmapped_columns_are_not_required_or_read() {
    let mut mapping = corpus_mapping(8);
    mapping.payload_columns.clear();
    let points = collect(5, |i| corpus_row(i, 2), &CORPUS_FIELDS, mapping);
    assert_eq!(points.len(), 5);
    assert!(points[0].payload.is_none(), "unmapped columns must not appear in the payload");
}

#[test]
fn missing_column_names_the_available_ones() {
    let mut mapping = corpus_mapping(8);
    let mut dense_vectors = NameMap::new();
    dense_vectors.insert("dense".to_string(), "embedding".to_string());
    mapping.dense_vectors = dense_vectors;
    let message = match ParquetSource::open("f.parquet", &names(&CORPUS_FIELDS), mapping) {
        Ok(_) => panic!("the column is not in the file"),
        Err(message) => message,
    };
    assert!(message.contains("'embedding' is not in the file"), "{message}");
    assert!(message.contains("dense_embedding"), "should list available columns: {message}");
}

#[test]
fn mapping_must_define_at_least_one_vector() {
    let mapping = ParquetMapping {
        id_column: "id".to_string(),
        id_format: IdFormat::Uuid,
        dense_vectors: NameMap::new(),
        sparse_vectors: NameMap::new(),
        payload_columns: vec![],
        batch_size: 8,
    };
    let err = mapping.validate().unwrap_err();
    assert!(err.contains("no vectors"), "{err}");
}

#[test]
fn a_mapping_is_held_to_its_rules() {
    assert!(corpus_mapping(1).validate().is_ok());
    assert!(corpus_mapping(0).validate().is_err());
    assert_eq!(
        corpus_mapping(8).referenced_columns().iter().filter(|name| *name == "url").count(),
        1,
    );
    assert_eq!(default_batch_size(), 1024);
    assert_eq!(default_indices_field(), "indices");
    assert_eq!(default_values_field(), "values");
}

#[test]
fn id_formats_parse_and_reject_as_documented() {
    let uuid = "62ce2668-49d0-4376-95b8-89fee313cd3b";
    assert!(matches!(IdFormat::Uuid.parse(uuid).unwrap(), PointId::Uuid(_)));
    assert!(IdFormat::Uuid.parse("not-a-uuid").is_err());

    let urn = format!("<urn:uuid:{uuid}>");
    assert_eq!(
        IdFormat::UrnUuid.parse(&urn).unwrap(),
        IdFormat::Uuid.parse(uuid).unwrap(),
        "URN form must yield the same point id as the bare UUID",
    );
    assert!(
        IdFormat::UrnUuid.parse(uuid).is_err(),
        "a bare UUID is not a URN; the formats must not silently overlap",
    );

    assert_eq!(IdFormat::Integer.parse("42").unwrap(), PointId::NumId(42));
    assert!(IdFormat::Integer.parse("-1").is_err());
}

#[test]
fn integer_ids_are_supported() {
    let mut dense_vectors = NameMap::new();
    dense_vectors.insert("dense".to_string(), "vec".to_string());
    let mapping = ParquetMapping {
        id_column: "id".to_string(),
        id_format: IdFormat::Integer,
        dense_vectors,
        sparse_vectors: NameMap::new(),
        payload_columns: vec![],
        batch_size: 2,
    };
    let row = |i: usize| {
        vec![
            ("id".to_string(), typed("Int64", Cell::Int64(7 + i as i64))),
            ("vec".to_string(), singles(&[2.0 * i as f32 + 1.0, 2.0 * i as f32 + 2.0])),
        ]
    };
    let points = collect(3, row, &["id", "vec"], mapping);
    assert_eq!(points.len(), 3);
    assert_eq!(points[0].id, PointId::NumId(7));
    assert_eq!(points[2].id, PointId::NumId(9));
    assert_eq!(dense(&points[2]), vec![5.0, 6.0]);
}

#[test]
fn describe_reports_row_group_footprint() {
    let columns = vec![
        ("id".to_string(), "Utf8".to_string()),
        ("dense_embedding".to_string(), "FixedSizeList".to_string()),
    ];
    let described = describe("corpus.parquet", 10, 1, "0.00", "0.00", &columns);
    assert!(described.contains("rows: 10"), "{described}");
    assert!(described.contains("largest row group"), "{described}");
    assert!(described.contains("dense_embedding"), "{described}");
}

// ----- Cells that do not fit -----

#[test]
fn ids_of_another_kind_are_refused() {
    assert!(require_integer_format(IdFormat::Integer).is_ok());
    assert!(require_integer_format(IdFormat::Uuid).is_err());
    assert!(read_id(&typed("Int64", Cell::Int64(1)), IdFormat::Uuid).is_err());
    assert!(read_id(&typed("Int64", Cell::Int64(-1)), IdFormat::Integer).is_err());
    assert_eq!(
        read_id(&typed("UInt64", Cell::UInt64(u64::MAX)), IdFormat::Integer),
        Ok(PointId::NumId(u64::MAX)),
    );
    assert!(read_id(&typed("Utf8", Cell::Null), IdFormat::Uuid).is_err());
    assert!(read_id(&typed("Boolean", Cell::Bool(true)), IdFormat::Uuid).is_err());
}

#[test]
fn dense_cells_must_be_lists_of_floats() {
    assert_eq!(read_dense(&singles(&[1.5])), Ok(vec![1.5f32.to_bits()]));
    assert!(read_dense(&text("x")).is_err());
    assert!(read_dense(&indices(&[1])).is_err());
    assert!(read_dense(&typed("List", Cell::Null)).is_err());
}

/// A sparse vector as a storage engine builds it: in the order of its dimensions, each of them once.
fn sorted(lists: SparseVector) -> Result<SparseVector, String> {
    let mut pairs: Vec<(u32, u32)> =
        lists.indices.iter().copied().zip(lists.values.iter().copied()).collect();
    pairs.sort();
    if pairs.windows(2).any(|pair| pair[0].0 == pair[1].0) {
        return Err("indices: must be unique".to_string());
    }
    Ok(SparseVector {
        indices: pairs.iter().map(|pair| pair.0).collect(),
        values: pairs.iter().map(|pair| pair.1).collect(),
    })
}

/// What the storage engine makes of the sparse vectors of a row.
fn built(
    columns: &[(String, TypedCell)],
    mapping: &ParquetMapping,
) -> NameMap<Result<SparseVector, String>> {
    let mut built = NameMap::new();
    for i in 0..mapping.sparse_vectors.len() {
        let sparse = mapping.sparse_vectors.value_at(i);
        let vector = match columns.iter().find(|(name, _)| *name == sparse.column) {
            Some((_, cell)) => sparse_lists(cell, sparse).and_then(sorted),
            None => Err(String::new()),
        };
        built.insert(mapping.sparse_vectors.name_at(i).clone(), vector);
    }
    built
}

#[test]
fn sparse_cells_must_be_parallel_lists() {
    let mapping = SparseMapping {
        column: "c".to_string(),
        indices_field: "indices".to_string(),
        values_field: "values".to_string(),
    };
    let good = sparse_cell(indices(&[3, 9]), singles(&[1.0, 2.0]));
    match sparse_lists(&good, &mapping) {
        Ok(vector) => assert_eq!(vector.indices, vec![3, 9]),
        Err(why) => panic!("{why}"),
    }
    let uneven = sparse_cell(indices(&[3]), singles(&[1.0, 2.0]));
    let built = sorted(SparseVector { indices: vec![3], values: vec![0] });
    assert!(read_sparse(&uneven, &mapping, &built).is_err());
    assert!(read_sparse(&text("x"), &mapping, &built).is_err());
    let renamed = SparseMapping {
        column: "c".to_string(),
        indices_field: "dims".to_string(),
        values_field: "values".to_string(),
    };
    assert!(read_sparse(&good, &renamed, &built).is_err());
}

#[test]
fn the_engine_has_the_last_word_on_a_sparse_vector() {
    let mapping = SparseMapping {
        column: "c".to_string(),
        indices_field: "indices".to_string(),
        values_field: "values".to_string(),
    };
    let lists = |cell: &TypedCell| match sparse_lists(cell, &mapping) {
        Ok(lists) => lists,
        Err(why) => panic!("{why}"),
    };
    let twice = sparse_cell(indices(&[3, 3]), singles(&[1.0, 2.0]));
    let refused = sorted(lists(&twice));
    assert_eq!(
        read_sparse(&twice, &mapping, &refused).err(),
        Some("invalid sparse vector: indices: must be unique".to_string()),
    );
    assert_eq!(
        read_sparse(&typed("Struct", Cell::Null), &mapping, &refused).err(),
        Some("cannot build empty sparse vector: indices: must be unique".to_string()),
    );
    // The vector is the one that the engine built, in the engine's order.
    let unsorted = sparse_cell(indices(&[9, 3]), singles(&[1.0, 2.0]));
    assert_eq!(lists(&unsorted).indices, vec![9, 3]);
    match read_sparse(&unsorted, &mapping, &sorted(lists(&unsorted))) {
        Ok(vector) => {
            assert_eq!(vector.indices, vec![3, 9]);
            assert_eq!(vector.values, vec![2.0f32.to_bits(), 1.0f32.to_bits()]);
        }
        Err(why) => panic!("{why}"),
    }
    // What is wrong with the lists comes before the engine is heard.
    let uneven = sparse_cell(indices(&[3]), singles(&[1.0, 2.0]));
    assert_eq!(
        read_sparse(&uneven, &mapping, &refused).err(),
        Some("sparse vector has 1 indices but 2 values".to_string()),
    );

    let mut sparse_vectors = NameMap::new();
    sparse_vectors.insert("sparse".to_string(), mapping);
    let mapping = ParquetMapping {
        id_column: "id".to_string(),
        id_format: IdFormat::Integer,
        dense_vectors: NameMap::new(),
        sparse_vectors,
        payload_columns: Vec::new(),
        batch_size: 1,
    };
    let columns = vec![("id".to_string(), text("7")), ("c".to_string(), unsorted)];
    assert!(read_row(&columns, &mapping, &built(&columns, &mapping)).is_ok());
    let columns = vec![("id".to_string(), text("7")), ("c".to_string(), twice)];
    assert_eq!(
        read_row(&columns, &mapping, &built(&columns, &mapping)).err(),
        Some(
            "column 'c' (vector 'sparse'): invalid sparse vector: indices: must be unique"
                .to_string()
        ),
    );
}

#[test]
fn values_become_json() {
    let value = |cell: Cell| arrow_value_to_json(&cell, "T").map(|json| json.to_text());
    assert_eq!(value(Cell::Text("a\"".to_string())), Ok("\"a\\\"\"".to_string()));
    assert_eq!(value(Cell::Bool(true)), Ok("true".to_string()));
    assert_eq!(value(Cell::Int32(-3)), Ok("-3".to_string()));
    assert_eq!(value(Cell::Int64(3)), Ok("3".to_string()));
    assert_eq!(value(Cell::UInt64(u64::MAX)), Ok("18446744073709551615".to_string()));
    assert_eq!(value(Cell::Float64(0, Some("0.5".to_string()))), Ok("0.5".to_string()));
    assert_eq!(value(Cell::Float64(0, None)), Ok("null".to_string()), "JSON has no infinity");
    assert!(value(Cell::Other).is_err());
    let items = vec![Cell::Text("a".to_string()), Cell::Null];
    let nested = Cell::List(ListCell {
        element: ElementKind::Other,
        element_type: "Utf8".to_string(),
        items,
    });
    assert_eq!(value(nested), Ok("[\"a\",null]".to_string()));
}

#[test]
fn a_payload_leaves_null_columns_out() {
    let columns = vec![
        ("a".to_string(), text("x")),
        ("b".to_string(), typed("Utf8", Cell::Null)),
    ];
    match read_payload(&columns, &names(&["a", "b"])) {
        Ok(Some(payload)) => {
            assert_eq!(Json::Object(payload.0).to_text(), r#"{"a":"x"}"#);
        }
        _ => panic!("a payload was expected"),
    }
    assert!(matches!(read_payload(&columns, &vec![]), Ok(None)));
}

#[test]
fn a_fault_names_the_file_and_the_row() {
    let (source, _) =
        ParquetSource::open("f.parquet", &names(&CORPUS_FIELDS), corpus_mapping(8)).unwrap();
    let message = source.row_message("no id");
    assert!(message.contains("f.parquet") && message.contains("no id"), "{message}");
}
