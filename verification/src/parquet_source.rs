//! Reading points out of columnar input.
use vstd::prelude::*;
use vstd::string::*;
use crate::ids;
use crate::json;
use crate::json::{Json, JsonValue};
use crate::names;
use crate::names::NameMap;
use crate::records::{Payload, Point, PointId, PointVectors, SparseVector, Vector, VectorView};
use crate::text;

verus! {

/// How to read a point id out of its column.
#[derive(Debug, Clone, Copy, PartialEq, Eq, Structural)]
pub enum IdFormat {
    /// A bare UUID string.
    Uuid,
    /// A UUID in URN form, `<urn:uuid:...>`.
    UrnUuid,
    /// An unsigned integer, either as a numeric column or as decimal text.
    Integer,
}

impl IdFormat {
    /// The name of a format in a fingerprint.
    pub open spec fn name(self) -> Seq<char> {
        match self {
            IdFormat::Uuid => "Uuid"@,
            IdFormat::UrnUuid => "UrnUuid"@,
            IdFormat::Integer => "Integer"@,
        }
    }

    /// The name of a format in a fingerprint.
    pub fn display_name(self) -> (name: &'static str)
        ensures
            name@ == self.name(),
    {
        match self {
            IdFormat::Uuid => "Uuid",
            IdFormat::UrnUuid => "UrnUuid",
            IdFormat::Integer => "Integer",
        }
    }
}

impl IdFormat {
    /// The point id that a text stands for under this format, or what is wrong with the text.
    pub open spec fn id_in(self, raw: Seq<char>) -> Result<PointId, Seq<char>> {
        match self {
            IdFormat::Uuid => match ids::uuid_in(raw) {
                Some(n) => Ok(PointId::Uuid(n as u128)),
                None => Err("id '"@ + raw + "' is not a UUID: "@ + ids::uuid_complaint(raw)),
            },
            IdFormat::UrnUuid => {
                let bare = text::trim_back(text::trim_front(raw, set!['<']), set!['>']);
                if !text::begins(bare, "urn:uuid:"@) {
                    Err(
                        "id '"@ + raw
                            + "' is not a URN UUID; expected the form <urn:uuid:XXXXXXXX-XXXX-XXXX-XXXX-XXXXXXXXXXXX>"@,
                    )
                } else {
                    let inner = bare.skip("urn:uuid:"@.len() as int);
                    match ids::uuid_in(inner) {
                        Some(n) => Ok(PointId::Uuid(n as u128)),
                        None => Err(
                            "id '"@ + raw + "' has an invalid UUID body: "@ + ids::uuid_complaint(
                                inner,
                            ),
                        ),
                    }
                }
            },
            IdFormat::Integer => match text::spelled(raw, u64::MAX as nat) {
                Ok(n) => Ok(PointId::NumId(n as u64)),
                Err(fault) => Err(
                    "id '"@ + raw + "' is not an unsigned integer: "@ + fault.text(),
                ),
            },
        }
    }

    /// Parse one id cell.
    pub fn parse(self, raw: &str) -> (id: Result<PointId, String>)
        ensures
            match id {
                Ok(id) => self.id_in(raw@) == Ok::<PointId, Seq<char>>(id),
                Err(message) => self.id_in(raw@) == Err::<PointId, Seq<char>>(message@),
            },
    {
        match self {
            IdFormat::Uuid => match ids::parse_uuid(raw) {
                Ok(n) => Ok(PointId::Uuid(n)),
                Err(why) => Err(text::cat4("id '", raw, "' is not a UUID: ", why.as_str())),
            },
            IdFormat::UrnUuid => {
                let bare = text::trim_end_char(text::trim_start_char(raw, '<'), '>');
                match text::strip_prefix(bare, "urn:uuid:") {
                    None => Err(
                        text::cat3(
                            "id '",
                            raw,
                            "' is not a URN UUID; expected the form <urn:uuid:XXXXXXXX-XXXX-XXXX-XXXX-XXXXXXXXXXXX>",
                        ),
                    ),
                    Some(inner) => match ids::parse_uuid(inner) {
                        Ok(n) => Ok(PointId::Uuid(n)),
                        Err(why) => Err(
                            text::cat4("id '", raw, "' has an invalid UUID body: ", why.as_str()),
                        ),
                    },
                }
            },
            IdFormat::Integer => match text::read_number(raw) {
                Ok(n) => Ok(PointId::NumId(n)),
                Err(fault) => Err(
                    text::cat4("id '", raw, "' is not an unsigned integer: ", fault.message()),
                ),
            },
        }
    }
}

/// A sparse vector stored as a struct of two parallel lists.
#[derive(Debug)]
pub struct SparseMapping {
    pub column: String,
    pub indices_field: String,
    pub values_field: String,
}

/// Which columns make up a point.
pub struct ParquetMapping {
    /// Column holding the point id.
    pub id_column: String,
    pub id_format: IdFormat,
    /// Vector name to source column.
    pub dense_vectors: NameMap<String>,
    /// Vector name to source columns.
    pub sparse_vectors: NameMap<SparseMapping>,
    /// Columns copied into the payload.
    pub payload_columns: Vec<String>,
    /// Rows read at a time.
    pub batch_size: usize,
}

pub fn default_batch_size() -> (rows: usize)
    ensures
        rows == 1024,
{
    1024
}

pub fn default_indices_field() -> (name: String)
    ensures
        name@ == "indices"@,
{
    "indices".to_owned()
}

pub fn default_values_field() -> (name: String)
    ensures
        name@ == "values"@,
{
    "values".to_owned()
}

/// The columns under a table of dense vectors, in the order of the vectors' names.
pub open spec fn dense_columns(table: Seq<(Seq<char>, String)>) -> Seq<Seq<char>> {
    Seq::new(table.len(), |i: int| table[i].1@)
}

/// The columns under a table of sparse vectors, in the order of the vectors' names.
pub open spec fn sparse_columns(table: Seq<(Seq<char>, SparseMapping)>) -> Seq<Seq<char>> {
    Seq::new(table.len(), |i: int| table[i].1.column@)
}

impl ParquetMapping {
    /// What is wrong with this mapping.
    pub open spec fn complaint(self) -> Option<Seq<char>> {
        if self.dense_vectors@.len() == 0 && self.sparse_vectors@.len() == 0 {
            Some("mapping defines no vectors; at least one dense or sparse vector is required"@)
        } else if self.batch_size == 0 {
            Some("batch_size must be at least 1"@)
        } else {
            None
        }
    }

    /// Whether this mapping can be read with.
    pub fn validate(&self) -> (outcome: Result<(), String>)
        ensures
            match outcome {
                Ok(()) => self.complaint() is None,
                Err(message) => self.complaint() == Some(message@),
            },
    {
        if self.dense_vectors.len() == 0 && self.sparse_vectors.len() == 0 {
            return Err(
                "mapping defines no vectors; at least one dense or sparse vector is required".to_owned(),
            );
        }
        if self.batch_size == 0 {
            return Err("batch_size must be at least 1".to_owned());
        }
        Ok(())
    }

    /// The columns that this mapping touches: the id, the vectors, the payload.
    pub open spec fn columns(self) -> Seq<Seq<char>> {
        seq![self.id_column@] + dense_columns(self.dense_vectors@) + sparse_columns(
            self.sparse_vectors@,
        ) + text::texts(self.payload_columns@)
    }

    /// Every column that this mapping touches.
    pub fn referenced_columns(&self) -> (columns: Vec<String>)
        ensures
            text::texts(columns@) == self.columns(),
    {
        let mut columns: Vec<String> = Vec::new();
        columns.push(self.id_column.clone());
        let ghost id = seq![self.id_column@];
        assert(text::texts(columns@) =~= id);
        let mut i: usize = 0;
        while i < self.dense_vectors.len()
            invariant
                i <= self.dense_vectors@.len(),
                text::texts(columns@) == id + dense_columns(self.dense_vectors@).take(i as int),
            decreases self.dense_vectors@.len() - i,
        {
            let ghost was = text::texts(columns@);
            columns.push(self.dense_vectors.value_at(i).clone());
            assert(text::texts(columns@) =~= was.push(dense_columns(self.dense_vectors@)[i as int]));
            assert(text::texts(columns@) =~= id + dense_columns(self.dense_vectors@).take(i + 1));
            i = i + 1;
        }
        let ghost dense = id + dense_columns(self.dense_vectors@);
        assert(text::texts(columns@) =~= dense);
        let mut i: usize = 0;
        while i < self.sparse_vectors.len()
            invariant
                i <= self.sparse_vectors@.len(),
                text::texts(columns@) == dense + sparse_columns(self.sparse_vectors@).take(
                    i as int,
                ),
            decreases self.sparse_vectors@.len() - i,
        {
            let ghost was = text::texts(columns@);
            columns.push(self.sparse_vectors.value_at(i).column.clone());
            assert(text::texts(columns@) =~= was.push(
                sparse_columns(self.sparse_vectors@)[i as int],
            ));
            assert(text::texts(columns@) =~= dense + sparse_columns(self.sparse_vectors@).take(
                i + 1,
            ));
            i = i + 1;
        }
        let ghost vectors = dense + sparse_columns(self.sparse_vectors@);
        assert(text::texts(columns@) =~= vectors);
        let mut i: usize = 0;
        while i < self.payload_columns.len()
            invariant
                i <= self.payload_columns@.len(),
                text::texts(columns@) == vectors + text::texts(self.payload_columns@).take(
                    i as int,
                ),
            decreases self.payload_columns@.len() - i,
        {
            let ghost was = text::texts(columns@);
            columns.push(self.payload_columns[i].clone());
            assert(text::texts(columns@) =~= was.push(
                text::texts(self.payload_columns@)[i as int],
            ));
            assert(text::texts(columns@) =~= vectors + text::texts(self.payload_columns@).take(
                i + 1,
            ));
            i = i + 1;
        }
        assert(text::texts(columns@) =~= self.columns());
        columns
    }
}

/// The type of the elements of a list, as far as the reader tells them apart.
#[derive(Debug, Clone, Copy, PartialEq, Eq, Structural)]
pub enum ElementKind {
    Int32,
    UInt32,
    UInt64,
    Float16,
    Float32,
    Float64,
    Other,
}

/// The elements of a list cell, of any of the list types.
#[derive(Debug)]
pub struct ListCell {
    pub element: ElementKind,
    /// The element type as the columnar library prints it.
    pub element_type: String,
    pub items: Vec<Cell>,
}

/// One decoded value. A float comes with the bit pattern of the nearest single-precision number
/// and, where JSON can hold it, the text of its number.
#[derive(Debug)]
pub enum Cell {
    Null,
    /// Any of the string types.
    Text(String),
    Bool(bool),
    Int32(i32),
    Int64(i64),
    UInt32(u32),
    UInt64(u64),
    Float16(u32),
    Float32(u32, Option<String>),
    Float64(u32, Option<String>),
    List(ListCell),
    Struct(Vec<(String, TypedCell)>),
    /// A value of a type that no mapping can use.
    Other,
}

/// A decoded value with its column's type, as the columnar library prints it.
#[derive(Debug)]
pub struct TypedCell {
    pub data_type: String,
    pub cell: Cell,
}

/// The first column of that name.
pub open spec fn column_of(columns: Seq<(String, TypedCell)>, name: Seq<char>) -> Option<TypedCell>
    decreases columns.len(),
{
    if columns.len() == 0 {
        None
    } else if columns[0].0@ == name {
        Some(columns[0].1)
    } else {
        column_of(columns.skip(1), name)
    }
}

fn find_column<'a>(columns: &'a Vec<(String, TypedCell)>, name: &str) -> (found: Option<
    &'a TypedCell,
>)
    ensures
        match found {
            Some(cell) => column_of(columns@, name@) == Some(*cell),
            None => column_of(columns@, name@) is None,
        },
{
    let mut i: usize = 0;
    assert(columns@.skip(0) =~= columns@);
    while i < columns.len()
        invariant
            i <= columns.len(),
            column_of(columns@, name@) == column_of(columns@.skip(i as int), name@),
        decreases columns.len() - i,
    {
        assert(columns@.skip(i as int)[0] == columns@[i as int]);
        assert(columns@.skip(i as int).skip(1) =~= columns@.skip(i + 1));
        if text::same(columns[i].0.as_str(), name) {
            return Some(&columns[i].1);
        }
        i = i + 1;
    }
    None
}

/// What is said of a column that a decoded batch lacks.
pub open spec fn missing_text(name: Seq<char>) -> Seq<char> {
    "column '"@ + name + "' missing from decoded batch"@
}

fn column<'a>(columns: &'a Vec<(String, TypedCell)>, name: &str) -> (found: Result<
    &'a TypedCell,
    String,
>)
    ensures
        match found {
            Ok(cell) => column_of(columns@, name@) == Some(*cell),
            Err(message) => column_of(columns@, name@) is None && message@ == missing_text(name@),
        },
{
    match find_column(columns, name) {
        Some(cell) => Ok(cell),
        None => Err(text::cat3("column '", name, "' missing from decoded batch")),
    }
}

/// What is said of a numeric id column under a format that is not numeric.
pub open spec fn numeric_column_text(format: IdFormat) -> Seq<char> {
    "id column is numeric but id_format is "@ + format.name() + "; set id_format to \"integer\""@
}

/// A numeric id column can only be an integer id; a UUID format would be a mapping mistake.
pub fn require_integer_format(format: IdFormat) -> (outcome: Result<(), String>)
    ensures
        match outcome {
            Ok(()) => format == IdFormat::Integer,
            Err(message) => format != IdFormat::Integer && message@ == numeric_column_text(format),
        },
{
    if format != IdFormat::Integer {
        return Err(
            text::cat3(
                "id column is numeric but id_format is ",
                format.display_name(),
                "; set id_format to \"integer\"",
            ),
        );
    }
    Ok(())
}

/// The id that a number stands for, where the format takes numbers.
pub open spec fn numeric_id(n: int, format: IdFormat) -> Result<PointId, Seq<char>> {
    if format != IdFormat::Integer {
        Err(numeric_column_text(format))
    } else if n < 0 {
        Err("id -"@ + text::decimal_text((-n) as nat) + " is negative; Qdrant ids are unsigned"@)
    } else {
        Ok(PointId::NumId(n as u64))
    }
}

/// The point id in a cell, or why there is none.
pub open spec fn id_of(cell: TypedCell, format: IdFormat) -> Result<PointId, Seq<char>> {
    match cell.cell {
        Cell::Null => Err("id is null"@),
        Cell::Text(raw) => format.id_in(raw@),
        Cell::UInt64(n) => numeric_id(n as int, format),
        Cell::UInt32(n) => numeric_id(n as int, format),
        Cell::Int64(n) => numeric_id(n as int, format),
        _ => Err(
            "unsupported id column type "@ + cell.data_type@
                + "; expected a string/UUID or unsigned integer"@,
        ),
    }
}

/// Read a point id from a string (including UUID text) or unsigned integer column.
pub fn read_id(cell: &TypedCell, format: IdFormat) -> (id: Result<PointId, String>)
    ensures
        match id {
            Ok(id) => id_of(*cell, format) == Ok::<PointId, Seq<char>>(id),
            Err(message) => id_of(*cell, format) == Err::<PointId, Seq<char>>(message@),
        },
{
    match &cell.cell {
        Cell::Null => Err("id is null".to_owned()),
        Cell::Text(raw) => format.parse(raw.as_str()),
        Cell::UInt64(n) => match require_integer_format(format) {
            Ok(()) => Ok(PointId::NumId(*n)),
            Err(message) => Err(message),
        },
        Cell::UInt32(n) => match require_integer_format(format) {
            Ok(()) => Ok(PointId::NumId(*n as u64)),
            Err(message) => Err(message),
        },
        Cell::Int64(n) => match require_integer_format(format) {
            Ok(()) => if *n < 0 {
                let size: u128 = (-(*n as i128)) as u128;
                Err(
                    text::cat3(
                        "id -",
                        text::decimal(size).as_str(),
                        " is negative; Qdrant ids are unsigned",
                    ),
                )
            } else {
                Ok(PointId::NumId(*n as u64))
            },
            Err(message) => Err(message),
        },
        _ => Err(
            text::cat3(
                "unsupported id column type ",
                cell.data_type.as_str(),
                "; expected a string/UUID or unsigned integer",
            ),
        ),
    }
}

/// The single-precision pattern of a float; of a missing one, that of zero.
pub open spec fn single_bits(cell: Cell) -> u32 {
    match cell {
        Cell::Float16(bits) => bits,
        Cell::Float32(bits, _) => bits,
        Cell::Float64(bits, _) => bits,
        _ => 0,
    }
}

/// The single-precision patterns of a list of floats.
pub open spec fn singles(items: Seq<Cell>) -> Seq<u32> {
    Seq::new(items.len(), |i: int| single_bits(items[i]))
}

fn single_values(items: &Vec<Cell>) -> (values: Vec<u32>)
    ensures
        values@ == singles(items@),
{
    let mut values: Vec<u32> = Vec::new();
    let mut i: usize = 0;
    while i < items.len()
        invariant
            i <= items.len(),
            values@ == singles(items@).take(i as int),
        decreases items.len() - i,
    {
        let bits: u32 = match &items[i] {
            Cell::Float16(bits) => *bits,
            Cell::Float32(bits, _) => *bits,
            Cell::Float64(bits, _) => *bits,
            _ => 0,
        };
        values.push(bits);
        assert(values@ =~= singles(items@).take(i + 1));
        i = i + 1;
    }
    assert(values@ =~= singles(items@));
    values
}

/// The dense vector in a cell, or why there is none.
pub open spec fn dense_of(cell: TypedCell) -> Result<Seq<u32>, Seq<char>> {
    match cell.cell {
        Cell::Null => Err("vector is null"@),
        Cell::List(list) => match list.element {
            ElementKind::Float16 | ElementKind::Float32 | ElementKind::Float64 => Ok(
                singles(list.items@),
            ),
            _ => Err(
                "unsupported dense element type "@ + list.element_type@
                    + "; expected float16/32/64"@,
            ),
        },
        _ => Err(
            "unsupported dense vector column type "@ + cell.data_type@
                + "; expected a list of floats"@,
        ),
    }
}

/// Read a dense vector from a list of floats.
pub fn read_dense(cell: &TypedCell) -> (vector: Result<Vec<u32>, String>)
    ensures
        match vector {
            Ok(values) => dense_of(*cell) == Ok::<Seq<u32>, Seq<char>>(values@),
            Err(message) => dense_of(*cell) == Err::<Seq<u32>, Seq<char>>(message@),
        },
{
    match &cell.cell {
        Cell::Null => Err("vector is null".to_owned()),
        Cell::List(list) => match list.element {
            ElementKind::Float16 | ElementKind::Float32 | ElementKind::Float64 => Ok(
                single_values(&list.items),
            ),
            _ => Err(
                text::cat3(
                    "unsupported dense element type ",
                    list.element_type.as_str(),
                    "; expected float16/32/64",
                ),
            ),
        },
        _ => Err(
            text::cat3(
                "unsupported dense vector column type ",
                cell.data_type.as_str(),
                "; expected a list of floats",
            ),
        ),
    }
}

/// The dimension that an index cell names: one that is too large names the last dimension, one
/// that is negative or missing the first.
pub open spec fn dimension(cell: Cell) -> u32 {
    match cell {
        Cell::UInt32(n) => n,
        Cell::UInt64(n) => if n <= u32::MAX {
            n as u32
        } else {
            u32::MAX
        },
        Cell::Int32(n) => if n >= 0 {
            n as u32
        } else {
            0
        },
        _ => 0,
    }
}

/// The dimensions that a list of index cells names.
pub open spec fn dimensions(items: Seq<Cell>) -> Seq<u32> {
    Seq::new(items.len(), |i: int| dimension(items[i]))
}

fn dimension_values(items: &Vec<Cell>) -> (values: Vec<u32>)
    ensures
        values@ == dimensions(items@),
{
    let mut values: Vec<u32> = Vec::new();
    let mut i: usize = 0;
    while i < items.len()
        invariant
            i <= items.len(),
            values@ == dimensions(items@).take(i as int),
        decreases items.len() - i,
    {
        let n: u32 = match &items[i] {
            Cell::UInt32(n) => *n,
            Cell::UInt64(n) => if *n <= u32::MAX as u64 {
                *n as u32
            } else {
                u32::MAX
            },
            Cell::Int32(n) => if *n >= 0 {
                *n as u32
            } else {
                0
            },
            _ => 0,
        };
        values.push(n);
        assert(values@ =~= dimensions(items@).take(i + 1));
        i = i + 1;
    }
    assert(values@ =~= dimensions(items@));
    values
}

/// The list in a cell, or what is said where there is none.
pub open spec fn list_of(cell: TypedCell) -> Result<ListCell, Seq<char>> {
    match cell.cell {
        Cell::List(list) => Ok(list),
        _ => Err("expected a list, found "@ + cell.data_type@),
    }
}

fn list_values(cell: &TypedCell) -> (list: Result<&ListCell, String>)
    ensures
        match list {
            Ok(list) => list_of(*cell) == Ok::<ListCell, Seq<char>>(*list),
            Err(message) => list_of(*cell) == Err::<ListCell, Seq<char>>(message@),
        },
{
    match &cell.cell {
        Cell::List(list) => Ok(list),
        _ => Err(text::cat2("expected a list, found ", cell.data_type.as_str())),
    }
}

/// What is said of a struct without that field.
pub open spec fn no_field_text(name: Seq<char>) -> Seq<char> {
    "sparse struct has no '"@ + name + "' field"@
}

/// The sparse vector in two lists, or why there is none.
pub open spec fn sparse_in(indices: ListCell, values: ListCell) -> Result<
    (Seq<u32>, Seq<u32>),
    Seq<char>,
> {
    if !(indices.element is UInt32 || indices.element is UInt64 || indices.element is Int32) {
        Err("unsupported sparse index type "@ + indices.element_type@ + "; expected uint32"@)
    } else if !(values.element is Float32 || values.element is Float64) {
        Err("unsupported sparse value type "@ + values.element_type@ + "; expected float32"@)
    } else if indices.items@.len() != values.items@.len() {
        Err(
            "sparse vector has "@ + text::decimal_text(indices.items@.len()) + " indices but "@
                + text::decimal_text(values.items@.len()) + " values"@,
        )
    } else {
        Ok((dimensions(indices.items@), singles(values.items@)))
    }
}

/// The dimensions and weights in a cell, or why there are none. An absent vector is empty.
pub open spec fn sparse_lists_of(cell: TypedCell, mapping: SparseMapping) -> Result<
    (Seq<u32>, Seq<u32>),
    Seq<char>,
> {
    match cell.cell {
        Cell::Null => Ok((Seq::empty(), Seq::empty())),
        Cell::Struct(fields) => match (
            column_of(fields@, mapping.indices_field@),
            column_of(fields@, mapping.values_field@),
        ) {
            (None, _) => Err(no_field_text(mapping.indices_field@)),
            (_, None) => Err(no_field_text(mapping.values_field@)),
            (Some(indices), Some(values)) => match (list_of(indices), list_of(values)) {
                (Err(message), _) => Err(message),
                (_, Err(message)) => Err(message),
                (Ok(indices), Ok(values)) => sparse_in(indices, values),
            },
        },
        _ => Err(
            "sparse column has type "@ + cell.data_type@
                + "; expected a struct of indices and values"@,
        ),
    }
}

/// The sparse vector in a cell, or why there is none. `built` is what the storage engine makes of
/// the dimensions and weights: a vector, which it may order anew, or why it refuses them.
pub open spec fn sparse_of(
    cell: TypedCell,
    mapping: SparseMapping,
    built: Result<(Seq<u32>, Seq<u32>), Seq<char>>,
) -> Result<(Seq<u32>, Seq<u32>), Seq<char>> {
    match (sparse_lists_of(cell, mapping), built) {
        (Err(message), _) => Err(message),
        (Ok(_), Ok(vector)) => Ok(vector),
        (Ok(_), Err(why)) => Err(
            (if cell.cell is Null {
                "cannot build empty sparse vector: "@
            } else {
                "invalid sparse vector: "@
            }) + why,
        ),
    }
}

/// Read the dimensions and weights of a sparse vector from a struct of parallel `indices` and
/// `values` lists. The storage engine may still refuse them.
pub fn sparse_lists(cell: &TypedCell, mapping: &SparseMapping) -> (vector: Result<
    SparseVector,
    String,
>)
    ensures
        match vector {
            Ok(v) => sparse_lists_of(*cell, *mapping) == Ok::<(Seq<u32>, Seq<u32>), Seq<char>>(v@),
            Err(message) => sparse_lists_of(*cell, *mapping) == Err::<
                (Seq<u32>, Seq<u32>),
                Seq<char>,
            >(message@),
        },
{
    let fields = match &cell.cell {
        Cell::Null => {
            let vector = SparseVector { indices: Vec::new(), values: Vec::new() };
            assert(vector@ == (Seq::<u32>::empty(), Seq::<u32>::empty()));
            return Ok(vector);
        },
        Cell::Struct(fields) => fields,
        _ => {
            return Err(
                text::cat3(
                    "sparse column has type ",
                    cell.data_type.as_str(),
                    "; expected a struct of indices and values",
                ),
            );
        },
    };
    let indices = match find_column(fields, mapping.indices_field.as_str()) {
        Some(indices) => indices,
        None => {
            return Err(
                text::cat3("sparse struct has no '", mapping.indices_field.as_str(), "' field"),
            );
        },
    };
    let values = match find_column(fields, mapping.values_field.as_str()) {
        Some(values) => values,
        None => {
            return Err(
                text::cat3("sparse struct has no '", mapping.values_field.as_str(), "' field"),
            );
        },
    };
    let indices = match list_values(indices) {
        Ok(list) => list,
        Err(message) => {
            return Err(message);
        },
    };
    let values = match list_values(values) {
        Ok(list) => list,
        Err(message) => {
            return Err(message);
        },
    };
    match indices.element {
        ElementKind::UInt32 | ElementKind::UInt64 | ElementKind::Int32 => {},
        _ => {
            return Err(
                text::cat3(
                    "unsupported sparse index type ",
                    indices.element_type.as_str(),
                    "; expected uint32",
                ),
            );
        },
    }
    match values.element {
        ElementKind::Float32 | ElementKind::Float64 => {},
        _ => {
            return Err(
                text::cat3(
                    "unsupported sparse value type ",
                    values.element_type.as_str(),
                    "; expected float32",
                ),
            );
        },
    }
    if indices.items.len() != values.items.len() {
        return Err(
            text::cat5(
                "sparse vector has ",
                text::decimal(indices.items.len() as u128).as_str(),
                " indices but ",
                text::decimal(values.items.len() as u128).as_str(),
                " values",
            ),
        );
    }
    Ok(
        SparseVector {
            indices: dimension_values(&indices.items),
            values: single_values(&values.items),
        },
    )
}

/// Read a sparse vector. `built` is what the storage engine makes of its dimensions and weights, as
/// `sparse_lists` gives them.
pub fn read_sparse(
    cell: &TypedCell,
    mapping: &SparseMapping,
    built: &Result<SparseVector, String>,
) -> (vector: Result<SparseVector, String>)
    ensures
        match vector {
            Ok(v) => sparse_of(*cell, *mapping, built_view(*built)) == Ok::<
                (Seq<u32>, Seq<u32>),
                Seq<char>,
            >(v@),
            Err(message) => sparse_of(*cell, *mapping, built_view(*built)) == Err::<
                (Seq<u32>, Seq<u32>),
                Seq<char>,
            >(message@),
        },
{
    match sparse_lists(cell, mapping) {
        Ok(_) => {},
        Err(message) => {
            return Err(message);
        },
    }
    match built {
        Ok(vector) => {
            let indices = vector.indices.clone();
            let values = vector.values.clone();
            assert(indices@ =~= vector.indices@);
            assert(values@ =~= vector.values@);
            Ok(SparseVector { indices, values })
        },
        Err(why) => match &cell.cell {
            Cell::Null => Err(text::cat2("cannot build empty sparse vector: ", why.as_str())),
            _ => Err(text::cat2("invalid sparse vector: ", why.as_str())),
        },
    }
}

/// What the storage engine made of a sparse vector.
pub open spec fn built_view(built: Result<SparseVector, String>) -> Result<
    (Seq<u32>, Seq<u32>),
    Seq<char>,
> {
    match built {
        Ok(vector) => Ok(vector@),
        Err(why) => Err(why@),
    }
}

/// What the storage engine made of the sparse vector of that name.
pub open spec fn built_of(
    built: Seq<(Seq<char>, Result<SparseVector, String>)>,
    name: Seq<char>,
) -> Result<(Seq<u32>, Seq<u32>), Seq<char>> {
    match names::value_of(built, name) {
        Some(one) => built_view(one),
        None => Err(Seq::empty()),
    }
}

/// JSON has no NaN or infinity, so a float without a number text becomes null.
pub open spec fn number_json(number: Option<String>) -> JsonValue {
    match number {
        Some(digits) => JsonValue::Decimal(digits@),
        None => JsonValue::Null,
    }
}

fn json_number(number: &Option<String>) -> (value: Json)
    ensures
        value@ == number_json(*number),
{
    match number {
        Some(digits) => Json::Decimal(digits.clone()),
        None => Json::Null,
    }
}

/// An integer in JSON.
pub open spec fn integer_json(n: int) -> JsonValue {
    if n < 0 {
        JsonValue::Negative(n as i64)
    } else {
        JsonValue::Unsigned(n as u64)
    }
}

fn json_integer(n: i64) -> (value: Json)
    ensures
        value@ == integer_json(n as int),
{
    if n < 0 {
        Json::Negative(n)
    } else {
        Json::Unsigned(n as u64)
    }
}

/// The elements of a list in JSON, up to the first that JSON cannot hold. A null element stays
/// null.
pub open spec fn items_json(items: Seq<Cell>, element_type: Seq<char>) -> Result<
    Seq<JsonValue>,
    Seq<char>,
>
    decreases items,
{
    if items.len() == 0 {
        Ok(Seq::empty())
    } else {
        match items_json(items.drop_last(), element_type) {
            Err(message) => Err(message),
            Ok(done) => if items.last() is Null {
                Ok(done.push(JsonValue::Null))
            } else {
                match cell_json(items.last(), element_type) {
                    Ok(value) => Ok(done.push(value)),
                    Err(message) => Err(message),
                }
            },
        }
    }
}

/// A cell in JSON, or what is said where JSON cannot hold it.
pub open spec fn cell_json(cell: Cell, data_type: Seq<char>) -> Result<JsonValue, Seq<char>>
    decreases cell,
{
    match cell {
        Cell::Text(s) => Ok(JsonValue::Text(s@)),
        Cell::Bool(b) => Ok(JsonValue::Bool(b)),
        Cell::Int32(n) => Ok(integer_json(n as int)),
        Cell::Int64(n) => Ok(integer_json(n as int)),
        Cell::UInt32(n) => Ok(integer_json(n as int)),
        Cell::UInt64(n) => Ok(integer_json(n as int)),
        Cell::Float32(_, number) => Ok(number_json(number)),
        Cell::Float64(_, number) => Ok(number_json(number)),
        Cell::List(list) => match items_json(list.items@, list.element_type@) {
            Ok(items) => Ok(JsonValue::List(items)),
            Err(message) => Err(message),
        },
        _ => Err(
            "unsupported payload column type "@ + data_type
                + "; convert it upstream or drop it from payload_columns"@,
        ),
    }
}

/// The first element that JSON cannot hold decides, whatever follows it.
proof fn lemma_items_fault(items: Seq<Cell>, n: int, element_type: Seq<char>, message: Seq<char>)
    requires
        0 <= n <= items.len(),
        items_json(items.take(n), element_type) == Err::<Seq<JsonValue>, Seq<char>>(message),
    ensures
        items_json(items, element_type) == Err::<Seq<JsonValue>, Seq<char>>(message),
    decreases items.len(),
{
    if n == items.len() {
        assert(items.take(n) =~= items);
    } else {
        assert(items.drop_last().take(n) =~= items.take(n));
        lemma_items_fault(items.drop_last(), n, element_type, message);
    }
}

/// Convert one cell to JSON. `data_type` names its type in a complaint.
pub fn arrow_value_to_json(cell: &Cell, data_type: &str) -> (value: Result<Json, String>)
    ensures
        match value {
            Ok(value) => cell_json(*cell, data_type@) == Ok::<JsonValue, Seq<char>>(value@),
            Err(message) => cell_json(*cell, data_type@) == Err::<JsonValue, Seq<char>>(message@),
        },
    decreases cell,
{
    match cell {
        Cell::Text(s) => Ok(Json::Text(s.clone())),
        Cell::Bool(b) => Ok(Json::Bool(*b)),
        Cell::Int32(n) => Ok(json_integer(*n as i64)),
        Cell::Int64(n) => Ok(json_integer(*n)),
        Cell::UInt32(n) => Ok(Json::Unsigned(*n as u64)),
        Cell::UInt64(n) => Ok(Json::Unsigned(*n)),
        Cell::Float32(_, number) => Ok(json_number(number)),
        Cell::Float64(_, number) => Ok(json_number(number)),
        Cell::List(list) => {
            let mut out: Vec<Json> = Vec::new();
            let mut i: usize = 0;
            assert(list.items@.take(0) =~= Seq::empty());
            while i < list.items.len()
                invariant
                    i <= list.items.len(),
                    *cell == Cell::List(*list),
                    items_json(list.items@.take(i as int), list.element_type@) == Ok::<
                        Seq<JsonValue>,
                        Seq<char>,
                    >(json::items_view(out@)),
                decreases list.items.len() - i,
            {
                assert(decreases_to!(cell => cell->List_0));
                assert(decreases_to!(list => list.items));
                assert(decreases_to!(list.items => list.items@));
                assert(decreases_to!(list.items@ => list.items@[i as int]));
                let ghost longer = list.items@.take(i + 1);
                assert(longer.drop_last() =~= list.items@.take(i as int));
                let item = match &list.items[i] {
                    Cell::Null => Json::Null,
                    _ => match arrow_value_to_json(&list.items[i], list.element_type.as_str()) {
                        Ok(item) => item,
                        Err(message) => {
                            proof {
                                lemma_items_fault(
                                    list.items@,
                                    i + 1,
                                    list.element_type@,
                                    message@,
                                );
                            }
                            return Err(message);
                        },
                    },
                };
                let ghost was = out@;
                out.push(item);
                assert(out@.drop_last() =~= was);
                assert(json::items_view(out@) == json::items_view(was).push(item@));
                assert(longer.last() == list.items@[i as int]);
                assert(items_json(longer, list.element_type@) == Ok::<Seq<JsonValue>, Seq<char>>(
                    json::items_view(was).push(item@),
                ));
                i = i + 1;
            }
            assert(list.items@.take(list.items@.len() as int) =~= list.items@);
            Ok(Json::List(out))
        },
        _ => Err(
            text::cat3(
                "unsupported payload column type ",
                data_type,
                "; convert it upstream or drop it from payload_columns",
            ),
        ),
    }
}

/// The payload members that the columns of a row give, up to the first column that gives none. A
/// null cell is left out.
pub open spec fn payload_members(
    columns: Seq<(String, TypedCell)>,
    names: Seq<Seq<char>>,
) -> Result<Seq<(Seq<char>, JsonValue)>, Seq<char>>
    decreases names.len(),
{
    if names.len() == 0 {
        Ok(Seq::empty())
    } else {
        match payload_members(columns, names.drop_last()) {
            Err(message) => Err(message),
            Ok(done) => match column_of(columns, names.last()) {
                None => Err(missing_text(names.last())),
                Some(cell) => if cell.cell is Null {
                    Ok(done)
                } else {
                    match cell_json(cell.cell, cell.data_type@) {
                        Ok(value) => Ok(json::with_member(done, names.last(), value)),
                        Err(message) => Err(message),
                    }
                },
            },
        }
    }
}

proof fn lemma_payload_fault(
    columns: Seq<(String, TypedCell)>,
    names: Seq<Seq<char>>,
    n: int,
    message: Seq<char>,
)
    requires
        0 <= n <= names.len(),
        payload_members(columns, names.take(n)) == Err::<Seq<(Seq<char>, JsonValue)>, Seq<char>>(
            message,
        ),
    ensures
        payload_members(columns, names) == Err::<Seq<(Seq<char>, JsonValue)>, Seq<char>>(message),
    decreases names.len(),
{
    if n == names.len() {
        assert(names.take(n) =~= names);
    } else {
        assert(names.drop_last().take(n) =~= names.take(n));
        lemma_payload_fault(columns, names.drop_last(), n, message);
    }
}

/// What a payload holds; no payload is one without members.
pub open spec fn payload_view(payload: Option<Payload>) -> Seq<(Seq<char>, JsonValue)> {
    match payload {
        Some(payload) => json::members_view(payload.0@),
        None => Seq::empty(),
    }
}

/// Build a payload from the mapped columns.
pub fn read_payload(columns: &Vec<(String, TypedCell)>, names: &Vec<String>) -> (payload: Result<
    Option<Payload>,
    String,
>)
    ensures
        match payload {
            Ok(payload) => {
                &&& payload_members(columns@, text::texts(names@)) == Ok::<
                    Seq<(Seq<char>, JsonValue)>,
                    Seq<char>,
                >(payload_view(payload))
                &&& payload is Some <==> payload_view(payload).len() > 0
            },
            Err(message) => payload_members(columns@, text::texts(names@)) == Err::<
                Seq<(Seq<char>, JsonValue)>,
                Seq<char>,
            >(message@),
        },
{
    let ghost all = text::texts(names@);
    let mut members: Vec<(String, Json)> = Vec::new();
    let mut i: usize = 0;
    assert(all.take(0) =~= Seq::empty());
    while i < names.len()
        invariant
            i <= names.len(),
            all == text::texts(names@),
            payload_members(columns@, all.take(i as int)) == Ok::<
                Seq<(Seq<char>, JsonValue)>,
                Seq<char>,
            >(json::members_view(members@)),
        decreases names.len() - i,
    {
        let ghost longer = all.take(i + 1);
        assert(longer.drop_last() =~= all.take(i as int));
        assert(longer.last() == names@[i as int]@);
        let cell = match column(columns, names[i].as_str()) {
            Ok(cell) => cell,
            Err(message) => {
                proof {
                    lemma_payload_fault(columns@, all, i + 1, message@);
                }
                return Err(message);
            },
        };
        match &cell.cell {
            Cell::Null => {},
            _ => match arrow_value_to_json(&cell.cell, cell.data_type.as_str()) {
                Ok(value) => json::put_member(&mut members, names[i].as_str(), value),
                Err(message) => {
                    proof {
                        lemma_payload_fault(columns@, all, i + 1, message@);
                    }
                    return Err(message);
                },
            },
        }
        i = i + 1;
    }
    assert(all.take(all.len() as int) =~= all);
    proof {
        json::lemma_members_at(members@);
    }
    if members.len() == 0 {
        assert(json::members_view(members@) =~= Seq::empty());
        return Ok(None);
    }
    Ok(Some(Payload(members)))
}

/// A complaint about a column.
pub open spec fn in_column(column: Seq<char>, why: Seq<char>) -> Seq<char> {
    "column '"@ + column + "': "@ + why
}

/// A complaint about the column of a vector.
pub open spec fn in_vector(column: Seq<char>, vector: Seq<char>, why: Seq<char>) -> Seq<char> {
    "column '"@ + column + "' (vector '"@ + vector + "'): "@ + why
}

/// The id that a row gives.
pub open spec fn row_id(columns: Seq<(String, TypedCell)>, mapping: ParquetMapping) -> Result<
    PointId,
    Seq<char>,
> {
    match column_of(columns, mapping.id_column@) {
        None => Err(missing_text(mapping.id_column@)),
        Some(cell) => match id_of(cell, mapping.id_format) {
            Ok(id) => Ok(id),
            Err(why) => Err(in_column(mapping.id_column@, why)),
        },
    }
}

/// The dense vector that a row gives under one entry of the mapping.
pub open spec fn row_dense(columns: Seq<(String, TypedCell)>, entry: (Seq<char>, String)) -> Result<
    Seq<u32>,
    Seq<char>,
> {
    match column_of(columns, entry.1@) {
        None => Err(missing_text(entry.1@)),
        Some(cell) => match dense_of(cell) {
            Ok(values) => Ok(values),
            Err(why) => Err(in_vector(entry.1@, entry.0, why)),
        },
    }
}

/// The sparse vector that a row gives under one entry of the mapping.
pub open spec fn row_sparse(
    columns: Seq<(String, TypedCell)>,
    entry: (Seq<char>, SparseMapping),
    built: Seq<(Seq<char>, Result<SparseVector, String>)>,
) -> Result<(Seq<u32>, Seq<u32>), Seq<char>> {
    match column_of(columns, entry.1.column@) {
        None => Err(missing_text(entry.1.column@)),
        Some(cell) => match sparse_of(cell, entry.1, built_of(built, entry.0)) {
            Ok(parts) => Ok(parts),
            Err(why) => Err(in_vector(entry.1.column@, entry.0, why)),
        },
    }
}

/// The first complaint about a dense vector of the mapping, from position `from`.
pub open spec fn dense_fault(
    columns: Seq<(String, TypedCell)>,
    table: Seq<(Seq<char>, String)>,
    from: int,
) -> Option<Seq<char>>
    decreases table.len() - from,
{
    if from < 0 || from >= table.len() {
        None
    } else {
        match row_dense(columns, table[from]) {
            Ok(_) => dense_fault(columns, table, from + 1),
            Err(message) => Some(message),
        }
    }
}

/// The first complaint about a sparse vector of the mapping, from position `from`.
pub open spec fn sparse_fault(
    columns: Seq<(String, TypedCell)>,
    table: Seq<(Seq<char>, SparseMapping)>,
    built: Seq<(Seq<char>, Result<SparseVector, String>)>,
    from: int,
) -> Option<Seq<char>>
    decreases table.len() - from,
{
    if from < 0 || from >= table.len() {
        None
    } else {
        match row_sparse(columns, table[from], built) {
            Ok(_) => sparse_fault(columns, table, built, from + 1),
            Err(message) => Some(message),
        }
    }
}

/// The first thing wrong with a row: with its id, its dense vectors, its sparse vectors, its
/// payload.
pub open spec fn row_fault(
    columns: Seq<(String, TypedCell)>,
    mapping: ParquetMapping,
    built: Seq<(Seq<char>, Result<SparseVector, String>)>,
) -> Option<Seq<char>> {
    match row_id(columns, mapping) {
        Err(message) => Some(message),
        Ok(_) => match dense_fault(columns, mapping.dense_vectors@, 0) {
            Some(message) => Some(message),
            None => match sparse_fault(columns, mapping.sparse_vectors@, built, 0) {
                Some(message) => Some(message),
                None => match payload_members(columns, text::texts(mapping.payload_columns@)) {
                    Err(message) => Some(message),
                    Ok(_) => None,
                },
            },
        },
    }
}

/// The vector that a row gives under a name: the sparse one where the mapping has both.
pub open spec fn row_vector(
    columns: Seq<(String, TypedCell)>,
    dense: Seq<(Seq<char>, String)>,
    sparse: Seq<(Seq<char>, SparseMapping)>,
    built: Seq<(Seq<char>, Result<SparseVector, String>)>,
    name: Seq<char>,
) -> Option<VectorView> {
    match names::value_of(sparse, name) {
        Some(mapping) => match row_sparse(columns, (name, mapping), built) {
            Ok((indices, values)) => Some(VectorView::Sparse(indices, values)),
            Err(_) => None,
        },
        None => match names::value_of(dense, name) {
            Some(column) => match row_dense(columns, (name, column)) {
                Ok(values) => Some(VectorView::Dense(values)),
                Err(_) => None,
            },
            None => None,
        },
    }
}

/// What the entry of a table holds.
pub open spec fn vector_view(vector: Option<Vector>) -> Option<VectorView> {
    match vector {
        Some(vector) => Some(vector@),
        None => None,
    }
}

/// Under a name that the next entry of a sorted table does not have, the table is as long as it
/// was.
proof fn lemma_value_in_prefix<T>(entries: Seq<(Seq<char>, T)>, n: int, name: Seq<char>)
    requires
        names::sorted_keys(entries),
        0 <= n < entries.len(),
    ensures
        names::value_of(entries.take(n + 1), name) == (if name == entries[n].0 {
            Some(entries[n].1)
        } else {
            names::value_of(entries.take(n), name)
        }),
{
    let shorter = entries.take(n);
    let longer = entries.take(n + 1);
    assert(names::sorted_keys(longer)) by {
        assert forall|i: int, j: int| 0 <= i < j < longer.len() implies text::text_lt(
            #[trigger] longer[i].0,
            #[trigger] longer[j].0,
        ) by {
            assert(text::text_lt(entries[i].0, entries[j].0));
        }
    }
    assert(names::sorted_keys(shorter)) by {
        assert forall|i: int, j: int| 0 <= i < j < shorter.len() implies text::text_lt(
            #[trigger] shorter[i].0,
            #[trigger] shorter[j].0,
        ) by {
            assert(text::text_lt(entries[i].0, entries[j].0));
        }
    }
    if name == entries[n].0 {
        names::lemma_value_at(longer, n);
    } else if names::has_key(shorter, name) {
        let i = choose|i: int| 0 <= i < shorter.len() && #[trigger] shorter[i].0 == name;
        names::lemma_value_at(shorter, i);
        assert(longer[i].0 == name);
        names::lemma_value_at(longer, i);
    } else if names::has_key(longer, name) {
        let i = choose|i: int| 0 <= i < longer.len() && #[trigger] longer[i].0 == name;
        assert(shorter[i].0 == name);
    }
}

fn read_dense_vectors(
    columns: &Vec<(String, TypedCell)>,
    table: &NameMap<String>,
    vectors: &mut NameMap<Vector>,
) -> (outcome: Result<(), String>)
    requires
        old(vectors)@.len() == 0,
    ensures
        match outcome {
            Ok(()) => {
                &&& dense_fault(columns@, table@, 0) is None
                &&& forall|name: Seq<char>|
                    vector_view(#[trigger] names::value_of(final(vectors)@, name)) == row_vector(
                        columns@,
                        table@,
                        Seq::empty(),
                        Seq::empty(),
                        name,
                    )
            },
            Err(message) => dense_fault(columns@, table@, 0) == Some(message@),
        },
{
    let ghost none = Seq::<(Seq<char>, SparseMapping)>::empty();
    let mut i: usize = 0;
    assert(table@.take(0) =~= Seq::empty());
    let count: usize = table.len();
    while i < count
        invariant
            i <= count,
            count == table@.len(),
            names::sorted_keys(table@),
            none.len() == 0,
            dense_fault(columns@, table@, 0) == dense_fault(columns@, table@, i as int),
            forall|name: Seq<char>|
                vector_view(#[trigger] names::value_of(vectors@, name)) == row_vector(
                    columns@,
                    table@.take(i as int),
                    none,
                    Seq::empty(),
                    name,
                ),
        decreases count - i,
    {
        let column_name = table.value_at(i);
        let vector_name = table.name_at(i);
        let cell = match column(columns, column_name.as_str()) {
            Ok(cell) => cell,
            Err(message) => {
                return Err(message);
            },
        };
        let values = match read_dense(cell) {
            Ok(values) => values,
            Err(why) => {
                return Err(
                    text::cat6(
                        "column '",
                        column_name.as_str(),
                        "' (vector '",
                        vector_name.as_str(),
                        "'): ",
                        why.as_str(),
                    ),
                );
            },
        };
        let ghost was = vectors@;
        vectors.insert(vector_name.clone(), Vector::Dense(values));
        proof {
            assert forall|name: Seq<char>|
                vector_view(#[trigger] names::value_of(vectors@, name)) == row_vector(
                    columns@,
                    table@.take(i + 1),
                    none,
                    Seq::empty(),
                    name,
                ) by {
                lemma_value_in_prefix(table@, i as int, name);
                assert(vector_view(names::value_of(was, name)) == row_vector(
                    columns@,
                    table@.take(i as int),
                    none,
                    Seq::empty(),
                    name,
                ));
            }
        }
        i = i + 1;
    }
    assert(table@.take(count as int) =~= table@);
    Ok(())
}

fn read_sparse_vectors(
    columns: &Vec<(String, TypedCell)>,
    dense: &NameMap<String>,
    table: &NameMap<SparseMapping>,
    built: &NameMap<Result<SparseVector, String>>,
    vectors: &mut NameMap<Vector>,
) -> (outcome: Result<(), String>)
    requires
        forall|i: int|
            0 <= i < table@.len() ==> names::has_key(built@, (#[trigger] table@[i]).0),
        forall|name: Seq<char>|
            vector_view(#[trigger] names::value_of(old(vectors)@, name)) == row_vector(
                columns@,
                dense@,
                Seq::empty(),
                Seq::empty(),
                name,
            ),
    ensures
        match outcome {
            Ok(()) => {
                &&& sparse_fault(columns@, table@, built@, 0) is None
                &&& forall|name: Seq<char>|
                    vector_view(#[trigger] names::value_of(final(vectors)@, name)) == row_vector(
                        columns@,
                        dense@,
                        table@,
                        built@,
                        name,
                    )
            },
            Err(message) => sparse_fault(columns@, table@, built@, 0) == Some(message@),
        },
{
    let mut i: usize = 0;
    assert(table@.take(0) =~= Seq::empty());
    let count: usize = table.len();
    while i < count
        invariant
            i <= count,
            count == table@.len(),
            names::sorted_keys(table@),
            forall|k: int|
                0 <= k < table@.len() ==> names::has_key(built@, (#[trigger] table@[k]).0),
            sparse_fault(columns@, table@, built@, 0) == sparse_fault(columns@, table@, built@, i as int),
            forall|name: Seq<char>|
                vector_view(#[trigger] names::value_of(vectors@, name)) == row_vector(
                    columns@,
                    dense@,
                    table@.take(i as int),
                    built@,
                    name,
                ),
        decreases count - i,
    {
        let sparse = table.value_at(i);
        let vector_name = table.name_at(i);
        let cell = match column(columns, sparse.column.as_str()) {
            Ok(cell) => cell,
            Err(message) => {
                return Err(message);
            },
        };
        assert(names::has_key(built@, table@[i as int].0));
        let one = built.get(vector_name.as_str()).unwrap();
        let vector = match read_sparse(cell, sparse, one) {
            Ok(vector) => vector,
            Err(why) => {
                return Err(
                    text::cat6(
                        "column '",
                        sparse.column.as_str(),
                        "' (vector '",
                        vector_name.as_str(),
                        "'): ",
                        why.as_str(),
                    ),
                );
            },
        };
        let ghost was = vectors@;
        vectors.insert(vector_name.clone(), Vector::Sparse(vector));
        proof {
            assert forall|name: Seq<char>|
                vector_view(#[trigger] names::value_of(vectors@, name)) == row_vector(
                    columns@,
                    dense@,
                    table@.take(i + 1),
                    built@,
                    name,
                ) by {
                lemma_value_in_prefix(table@, i as int, name);
                assert(vector_view(names::value_of(was, name)) == row_vector(
                    columns@,
                    dense@,
                    table@.take(i as int),
                    built@,
                    name,
                ));
            }
        }
        i = i + 1;
    }
    assert(table@.take(count as int) =~= table@);
    Ok(())
}

/// Build one point from the columns of one row. `built` holds, under the name of each sparse vector,
/// what the storage engine makes of it; of one whose column cannot be read it is not looked at.
pub fn read_row(
    columns: &Vec<(String, TypedCell)>,
    mapping: &ParquetMapping,
    built: &NameMap<Result<SparseVector, String>>,
) -> (point: Result<Point, String>)
    requires
        forall|i: int|
            0 <= i < mapping.sparse_vectors@.len() ==> names::has_key(
                built@,
                (#[trigger] mapping.sparse_vectors@[i]).0,
            ),
    ensures
        match point {
            Ok(point) => {
                &&& row_fault(columns@, *mapping, built@) is None
                &&& row_id(columns@, *mapping) == Ok::<PointId, Seq<char>>(point.id)
                &&& match point.vector {
                    PointVectors::Named(vectors) => forall|name: Seq<char>|
                        vector_view(#[trigger] names::value_of(vectors@, name)) == row_vector(
                            columns@,
                            mapping.dense_vectors@,
                            mapping.sparse_vectors@,
                            built@,
                            name,
                        ),
                    _ => false,
                }
                &&& payload_members(columns@, text::texts(mapping.payload_columns@)) == Ok::<
                    Seq<(Seq<char>, JsonValue)>,
                    Seq<char>,
                >(payload_view(point.payload))
                &&& point.payload is Some <==> payload_view(point.payload).len() > 0
            },
            Err(message) => row_fault(columns@, *mapping, built@) == Some(message@),
        },
{
    let cell = match column(columns, mapping.id_column.as_str()) {
        Ok(cell) => cell,
        Err(message) => {
            return Err(message);
        },
    };
    let id = match read_id(cell, mapping.id_format) {
        Ok(id) => id,
        Err(why) => {
            return Err(text::cat4("column '", mapping.id_column.as_str(), "': ", why.as_str()));
        },
    };
    let mut vectors: NameMap<Vector> = NameMap::new();
    match read_dense_vectors(columns, &mapping.dense_vectors, &mut vectors) {
        Ok(()) => {},
        Err(message) => {
            return Err(message);
        },
    }
    match read_sparse_vectors(
        columns,
        &mapping.dense_vectors,
        &mapping.sparse_vectors,
        built,
        &mut vectors,
    ) {
        Ok(()) => {},
        Err(message) => {
            return Err(message);
        },
    }
    let payload = match read_payload(columns, &mapping.payload_columns) {
        Ok(payload) => payload,
        Err(message) => {
            return Err(message);
        },
    };
    Ok(Point { id, vector: PointVectors::Named(vectors), payload })
}

/// Where the first field of that name stands, or the number of fields where there is none.
pub open spec fn field_index(fields: Seq<Seq<char>>, name: Seq<char>) -> int
    decreases fields.len(),
{
    if fields.len() == 0 || fields[0] == name {
        0
    } else {
        1 + field_index(fields.skip(1), name)
    }
}

fn index_of(fields: &Vec<String>, name: &str) -> (at: usize)
    ensures
        at == field_index(text::texts(fields@), name@),
        at <= fields.len(),
{
    let ghost all = text::texts(fields@);
    let mut at: usize = 0;
    assert(all.skip(0) =~= all);
    while at < fields.len() && !text::same(fields[at].as_str(), name)
        invariant
            at <= fields.len(),
            all == text::texts(fields@),
            field_index(all, name@) == at + field_index(all.skip(at as int), name@),
        decreases fields.len() - at,
    {
        assert(all.skip(at as int)[0] == all[at as int]);
        assert(all.skip(at as int).skip(1) =~= all.skip(at + 1));
        at = at + 1;
    }
    proof {
        if at < fields.len() {
            assert(all.skip(at as int)[0] == all[at as int]);
        }
    }
    at
}

/// The first of the wanted columns that the file lacks, from position `from`.
pub open spec fn absent_column(
    wanted: Seq<Seq<char>>,
    fields: Seq<Seq<char>>,
    from: int,
) -> Option<Seq<char>>
    decreases wanted.len() - from,
{
    if from < 0 || from >= wanted.len() {
        None
    } else if field_index(fields, wanted[from]) >= fields.len() {
        Some(wanted[from])
    } else {
        absent_column(wanted, fields, from + 1)
    }
}

/// Why a file with those fields cannot be opened under a mapping.
pub open spec fn open_fault(
    path: Seq<char>,
    fields: Seq<Seq<char>>,
    mapping: ParquetMapping,
) -> Option<Seq<char>> {
    match mapping.complaint() {
        Some(message) => Some(message),
        None => match absent_column(mapping.columns(), fields, 0) {
            Some(name) => Some(
                path + ": column '"@ + name + "' is not in the file. Available: "@ + text::joined(
                    fields,
                    ", "@,
                ),
            ),
            None => None,
        },
    }
}

/// What has to be done for the next point.
#[derive(Debug, Clone, Copy, PartialEq, Eq, Structural)]
pub enum SourceStep {
    /// Decode the next batch, and say how many rows it has.
    DecodeBatch,
    /// Read that row of the current batch.
    ReadRow(usize),
}

/// Streams points out of one Parquet file: what is known of it while its batches are drained row
/// by row.
pub struct ParquetSource {
    pub mapping: ParquetMapping,
    pub path: String,
    /// The number of rows of the current batch.
    pub batch: Option<usize>,
    /// The next row of the current batch.
    pub row: usize,
    /// Rows read of the whole file.
    pub rows_read: u64,
}

impl ParquetSource {
    /// The rows of the current batch that are still to be read.
    pub open spec fn pending(self) -> nat {
        match self.batch {
            Some(rows) => if self.row < rows {
                (rows - self.row) as nat
            } else {
                0
            },
            None => 0,
        }
    }

    /// Open a file whose schema has those fields. Every mapped column must be among them: a mapping
    /// mistake surfaces on the first file rather than as absent vectors later. The positions are
    /// those of the columns to project.
    pub fn open(path: &str, fields: &Vec<String>, mapping: ParquetMapping) -> (source: Result<
        (Self, Vec<usize>),
        String,
    >)
        ensures
            match source {
                Ok((source, positions)) => {
                    &&& open_fault(path@, text::texts(fields@), mapping) is None
                    &&& source.mapping == mapping
                    &&& source.path@ == path@
                    &&& source.batch is None
                    &&& source.rows_read == 0
                    &&& positions@.len() == mapping.columns().len()
                    &&& forall|i: int|
                        0 <= i < positions@.len() ==> #[trigger] positions@[i] < fields@.len()
                            && positions@[i] == field_index(
                            text::texts(fields@),
                            mapping.columns()[i],
                        )
                },
                Err(message) => open_fault(path@, text::texts(fields@), mapping) == Some(message@),
            },
    {
        match mapping.validate() {
            Ok(()) => {},
            Err(message) => {
                return Err(message);
            },
        }
        let wanted = mapping.referenced_columns();
        let mut positions: Vec<usize> = Vec::new();
        let mut i: usize = 0;
        while i < wanted.len()
            invariant
                i <= wanted.len(),
                mapping.complaint() is None,
                text::texts(wanted@) == mapping.columns(),
                absent_column(mapping.columns(), text::texts(fields@), 0) == absent_column(
                    mapping.columns(),
                    text::texts(fields@),
                    i as int,
                ),
                positions@.len() == i,
                forall|k: int|
                    0 <= k < i ==> #[trigger] positions@[k] < fields@.len() && positions@[k]
                        == field_index(text::texts(fields@), mapping.columns()[k]),
            decreases wanted.len() - i,
        {
            assert(mapping.columns()[i as int] == wanted@[i as int]@);
            let at: usize = index_of(fields, wanted[i].as_str());
            if at >= fields.len() {
                return Err(
                    text::cat5(
                        path,
                        ": column '",
                        wanted[i].as_str(),
                        "' is not in the file. Available: ",
                        text::join(fields, ", ").as_str(),
                    ),
                );
            }
            positions.push(at);
            i = i + 1;
        }
        Ok(
            (
                ParquetSource { mapping, path: path.to_owned(), batch: None, row: 0, rows_read: 0 },
                positions,
            ),
        )
    }

    /// Take the outcome of decoding the next batch: its number of rows, or nothing at the end of
    /// the file. Says whether there is a batch.
    pub fn advance_batch(&mut self, rows: Option<usize>) -> (more: bool)
        ensures
            more == rows is Some,
            *final(self) == (match rows {
                Some(n) => (ParquetSource { batch: Some(n), row: 0, ..*old(self) }),
                None => *old(self),
            }),
    {
        match rows {
            Some(n) => {
                self.batch = Some(n);
                self.row = 0;
                true
            },
            None => false,
        }
    }

    /// What has to be done for the next point: the rows of a batch one after the other, then the
    /// next batch.
    pub fn next_point(&mut self) -> (step: SourceStep)
        requires
            old(self).rows_read < u64::MAX,
        ensures
            match step {
                SourceStep::DecodeBatch => {
                    &&& old(self).pending() == 0
                    &&& *final(self) == (ParquetSource { batch: None, ..*old(self) })
                },
                SourceStep::ReadRow(row) => {
                    &&& old(self).pending() > 0
                    &&& row == old(self).row
                    &&& *final(self) == (ParquetSource {
                        row: (old(self).row + 1) as usize,
                        rows_read: (old(self).rows_read + 1) as u64,
                        ..*old(self)
                    })
                    &&& final(self).pending() == old(self).pending() - 1
                },
            },
    {
        match self.batch {
            Some(rows) => if self.row < rows {
                let row: usize = self.row;
                self.row = row + 1;
                self.rows_read = self.rows_read + 1;
                SourceStep::ReadRow(row)
            } else {
                self.batch = None;
                SourceStep::DecodeBatch
            },
            None => SourceStep::DecodeBatch,
        }
    }

    /// A complaint about the row that was read last.
    pub open spec fn row_text(self, why: Seq<char>) -> Seq<char> {
        self.path@ + ": row "@ + text::decimal_text(self.rows_read as nat)
            + " (of the whole file): "@ + why
    }

    /// The message for a complaint about the row that was read last.
    pub fn row_message(&self, why: &str) -> (message: String)
        ensures
            message@ == self.row_text(why@),
    {
        text::cat5(
            self.path.as_str(),
            ": row ",
            text::decimal(self.rows_read as u128).as_str(),
            " (of the whole file): ",
            why,
        )
    }
}

/// The lines on the columns of a file: name and type.
pub open spec fn column_lines(columns: Seq<(String, String)>) -> Seq<char>
    decreases columns.len(),
{
    if columns.len() == 0 {
        Seq::empty()
    } else {
        column_lines(columns.drop_last()) + ("  "@ + columns.last().0@ + ": "@ + columns.last().1@
            + "\n"@)
    }
}

/// A description of a Parquet file, for building a mapping.
pub open spec fn description(
    path: Seq<char>,
    rows: nat,
    row_groups: nat,
    compressed: Seq<char>,
    largest: Seq<char>,
    columns: Seq<(String, String)>,
) -> Seq<char> {
    "file: "@ + path + "\nrows: "@ + text::decimal_text(rows) + "\nrow groups: "@
        + text::decimal_text(row_groups) + "\ncompressed: "@ + (compressed
        + " MB\nlargest row group: "@ + largest
        + " MB  <- bounds peak memory per reader\n\ncolumns:\n"@ + column_lines(columns))
}

/// Describe a Parquet file for a reader. The sizes are in megabytes, to one decimal.
pub fn describe(
    path: &str,
    rows: u64,
    row_groups: usize,
    compressed: &str,
    largest: &str,
    columns: &Vec<(String, String)>,
) -> (text: String)
    ensures
        text@ == description(
            path@,
            rows as nat,
            row_groups as nat,
            compressed@,
            largest@,
            columns@,
        ),
{
    let mut lines = String::new();
    let mut i: usize = 0;
    assert(columns@.take(0) =~= Seq::empty());
    while i < columns.len()
        invariant
            i <= columns.len(),
            lines@ == column_lines(columns@.take(i as int)),
        decreases columns.len() - i,
    {
        let line = text::cat5("  ", columns[i].0.as_str(), ": ", columns[i].1.as_str(), "\n");
        lines.append(line.as_str());
        assert(columns@.take(i + 1).drop_last() =~= columns@.take(i as int));
        i = i + 1;
    }
    assert(columns@.take(columns@.len() as int) =~= columns@);
    let tail = text::cat5(
        compressed,
        " MB\nlargest row group: ",
        largest,
        " MB  <- bounds peak memory per reader\n\ncolumns:\n",
        lines.as_str(),
    );
    let mut text = text::cat7(
        "file: ",
        path,
        "\nrows: ",
        text::decimal(rows as u128).as_str(),
        "\nrow groups: ",
        text::decimal(row_groups as u128).as_str(),
        "\ncompressed: ",
    );
    text.append(tail.as_str());
    text
}

/// A dense vector is read exactly from a list of floats of one of the three widths. It has as many
/// elements as the list, and each is the single-precision pattern that the item carries; only a
/// missing item counts as zero.
pub proof fn dense_vectors_keep_every_element(cell: TypedCell)
    ensures
        dense_of(cell) is Ok <==> (cell.cell matches Cell::List(list) && (
        list.element is Float16 || list.element is Float32 || list.element is Float64)),
        dense_of(cell) matches Ok(vector) ==> (cell.cell matches Cell::List(list) && {
            &&& vector.len() == list.items@.len()
            &&& forall|i: int|
                0 <= i < vector.len() ==> {
                    &&& list.items@[i] matches Cell::Float16(bits) ==> (#[trigger] vector[i]) == bits
                    &&& list.items@[i] matches Cell::Float32(bits, _) ==> vector[i] == bits
                    &&& list.items@[i] matches Cell::Float64(bits, _) ==> vector[i] == bits
                    &&& list.items@[i] is Null ==> vector[i] == 0
                }
        }),
{
}

/// A sparse vector is read exactly from an absent cell, as the empty one, or from a struct whose two
/// mapped fields are lists of equal length, one of integers and one of floats. It has an entry for
/// every item: the dimension is the number in the first list, brought into the range of dimensions,
/// and the weight is the single-precision pattern that the item of the second carries; only a missing
/// item counts as zero.
pub proof fn sparse_vectors_keep_every_entry(cell: TypedCell, mapping: SparseMapping)
    ensures
        cell.cell is Null ==> sparse_lists_of(cell, mapping) == Ok::<
            (Seq<u32>, Seq<u32>),
            Seq<char>,
        >((Seq::empty(), Seq::empty())),
        cell.cell !is Null ==> (sparse_lists_of(cell, mapping) is Ok <==> (
        cell.cell matches Cell::Struct(fields) && (column_of(
            fields@,
            mapping.indices_field@,
        ) matches Some(first) && (column_of(fields@, mapping.values_field@) matches Some(second) && (
        first.cell matches Cell::List(indices) && (second.cell matches Cell::List(values) && {
            &&& indices.element is UInt32 || indices.element is UInt64 || indices.element is Int32
            &&& values.element is Float32 || values.element is Float64
            &&& indices.items@.len() == values.items@.len()
        })))))),
        sparse_lists_of(cell, mapping) matches Ok((dimensions, weights)) ==> (
        cell.cell matches Cell::Struct(fields) ==> {
            let indices = column_of(fields@, mapping.indices_field@)->0.cell->List_0.items@;
            let values = column_of(fields@, mapping.values_field@)->0.cell->List_0.items@;
            &&& dimensions.len() == indices.len()
            &&& weights.len() == values.len()
            &&& dimensions.len() == weights.len()
            &&& forall|i: int|
                0 <= i < dimensions.len() ==> {
                    &&& indices[i] matches Cell::UInt32(n) ==> (#[trigger] dimensions[i]) == n
                    &&& indices[i] matches Cell::UInt64(n) ==> dimensions[i] <= n && (dimensions[i]
                        == n || dimensions[i] == u32::MAX)
                    &&& indices[i] matches Cell::Int32(n) ==> dimensions[i] >= n && (dimensions[i]
                        == n || dimensions[i] == 0)
                    &&& indices[i] is Null ==> dimensions[i] == 0
                }
            &&& forall|i: int|
                0 <= i < weights.len() ==> {
                    &&& values[i] matches Cell::Float16(bits) ==> (#[trigger] weights[i]) == bits
                    &&& values[i] matches Cell::Float32(bits, _) ==> weights[i] == bits
                    &&& values[i] matches Cell::Float64(bits, _) ==> weights[i] == bits
                    &&& values[i] is Null ==> weights[i] == 0
                }
        }),
{
}

/// A row gives a vector under every name of its mapping and under no other, each read from the
/// column that the mapping states for the name; the sparse one where a name has both.
pub proof fn a_row_gives_every_mapped_vector(
    columns: Seq<(String, TypedCell)>,
    mapping: ParquetMapping,
    built: Seq<(Seq<char>, Result<SparseVector, String>)>,
    name: Seq<char>,
)
    requires
        row_fault(columns, mapping, built) is None,
        names::sorted_keys(mapping.dense_vectors@),
        names::sorted_keys(mapping.sparse_vectors@),
    ensures
        ({
            let vector = row_vector(
                columns,
                mapping.dense_vectors@,
                mapping.sparse_vectors@,
                built,
                name,
            );
            &&& vector is Some <==> names::has_key(mapping.dense_vectors@, name) || names::has_key(
                mapping.sparse_vectors@,
                name,
            )
            &&& names::value_of(mapping.sparse_vectors@, name) matches Some(entry) ==> (
            column_of(columns, entry.column@) matches Some(cell) && sparse_lists_of(
                cell,
                entry,
            ) is Ok && (built_of(built, name) matches Ok(made) && vector == Some(
                VectorView::Sparse(made.0, made.1),
            )))
            &&& names::value_of(mapping.sparse_vectors@, name) is None ==> (names::value_of(
                mapping.dense_vectors@,
                name,
            ) matches Some(column) ==> (column_of(columns, column@) matches Some(cell) && (dense_of(
                cell,
            ) matches Ok(values) && vector == Some(VectorView::Dense(values)))))
        }),
{
    let dense = mapping.dense_vectors@;
    let sparse = mapping.sparse_vectors@;
    if names::has_key(sparse, name) {
        let i = choose|i: int| 0 <= i < sparse.len() && #[trigger] sparse[i].0 == name;
        names::lemma_value_at(sparse, i);
        lemma_sparse_readable(columns, sparse, built, 0, i);
    } else if names::has_key(dense, name) {
        let i = choose|i: int| 0 <= i < dense.len() && #[trigger] dense[i].0 == name;
        names::lemma_value_at(dense, i);
        lemma_dense_readable(columns, dense, 0, i);
    }
}

proof fn lemma_dense_readable(
    columns: Seq<(String, TypedCell)>,
    table: Seq<(Seq<char>, String)>,
    from: int,
    i: int,
)
    requires
        0 <= from <= i < table.len(),
        dense_fault(columns, table, from) is None,
    ensures
        row_dense(columns, table[i]) is Ok,
    decreases i - from,
{
    if from < i {
        lemma_dense_readable(columns, table, from + 1, i);
    }
}

proof fn lemma_sparse_readable(
    columns: Seq<(String, TypedCell)>,
    table: Seq<(Seq<char>, SparseMapping)>,
    built: Seq<(Seq<char>, Result<SparseVector, String>)>,
    from: int,
    i: int,
)
    requires
        0 <= from <= i < table.len(),
        sparse_fault(columns, table, built, from) is None,
    ensures
        row_sparse(columns, table[i], built) is Ok,
    decreases i - from,
{
    if from < i {
        lemma_sparse_readable(columns, table, built, from + 1, i);
    }
}

/// A numeric id column is read under the integer format alone, and every number that is not negative
/// keeps its value.
pub proof fn numeric_ids_keep_their_value(cell: TypedCell, format: IdFormat)
    ensures
        cell.cell matches Cell::UInt64(n) ==> (id_of(cell, format) is Ok <==> format is Integer),
        cell.cell matches Cell::UInt64(n) ==> (id_of(cell, format) matches Ok(id) ==> id
            == PointId::NumId(n)),
        cell.cell matches Cell::UInt32(n) ==> (id_of(cell, format) is Ok <==> format is Integer),
        cell.cell matches Cell::UInt32(n) ==> (id_of(cell, format) matches Ok(id) ==> id
            == PointId::NumId(n as u64)),
        cell.cell matches Cell::Int64(n) ==> (id_of(cell, format) is Ok <==> format is Integer && n
            >= 0),
        cell.cell matches Cell::Int64(n) ==> (id_of(cell, format) matches Ok(id) ==> id
            == PointId::NumId(n as u64)),
        cell.cell is Null ==> id_of(cell, format) is Err,
{
}

/// The text of an id reads back as the id under its format: the decimal text of a number, the text of
/// a UUID bare, and the same in URN form between angle brackets.
pub proof fn id_texts_read_back(n: u64, uuid: u128)
    ensures
        IdFormat::Integer.id_in(text::decimal_text(n as nat)) == Ok::<PointId, Seq<char>>(
            PointId::NumId(n),
        ),
        IdFormat::Uuid.id_in(ids::uuid_text(uuid)) == Ok::<PointId, Seq<char>>(PointId::Uuid(uuid)),
        IdFormat::UrnUuid.id_in("urn:uuid:"@ + ids::uuid_text(uuid)) == Ok::<PointId, Seq<char>>(
            PointId::Uuid(uuid),
        ),
        IdFormat::UrnUuid.id_in("<urn:uuid:"@ + ids::uuid_text(uuid) + ">"@) == Ok::<
            PointId,
            Seq<char>,
        >(PointId::Uuid(uuid)),
{
    text::decimal_text_spells_its_number(n as nat, u64::MAX as nat);
    ids::uuid_text_parses(uuid);
    reveal_strlit("urn:uuid:");
    reveal_strlit("<urn:uuid:");
    reveal_strlit(">");
    let s = ids::uuid_text(uuid);
    let bare = "urn:uuid:"@ + s;
    let full = "<urn:uuid:"@ + s + ">"@;
    ids::lemma_uuid_text_ends(uuid);
    let open = set!['<'];
    let shut = set!['>'];
    assert(bare.last() == s.last());
    assert(bare[0] == 'u');
    assert(text::trim_front(bare, open) == bare);
    assert(text::trim_back(bare, shut) == bare);
    assert(bare.take(9) =~= "urn:uuid:"@);
    assert(bare.skip(9) =~= s);
    let opened = bare + ">"@;
    assert(full.skip(1) =~= opened);
    assert(full[0] == '<');
    assert(opened[0] == 'u');
    assert(text::trim_front(opened, open) == opened);
    assert(text::trim_front(full, open) == opened);
    assert(opened.drop_last() =~= bare);
    assert(opened.last() == '>');
    assert(text::trim_back(opened, shut) == bare);
}

/// A mapping can be read with exactly where it has a vector and reads some rows at a time.
pub proof fn a_mapping_needs_a_vector_and_a_batch(mapping: ParquetMapping)
    ensures
        mapping.complaint() is None <==> (mapping.dense_vectors@.len() > 0
            || mapping.sparse_vectors@.len() > 0) && mapping.batch_size >= 1,
{
}

/// The columns that a mapping touches are its id column, the column of each of its vectors and each
/// of its payload columns, and no other.
pub proof fn every_mapped_column_is_touched(mapping: ParquetMapping, column: Seq<char>)
    ensures
        mapping.columns().contains(column) <==> {
            ||| column == mapping.id_column@
            ||| exists|i: int|
                0 <= i < mapping.dense_vectors@.len() && (#[trigger] mapping.dense_vectors@[i]).1@
                    == column
            ||| exists|i: int|
                0 <= i < mapping.sparse_vectors@.len() && (
                #[trigger] mapping.sparse_vectors@[i]).1.column@ == column
            ||| exists|i: int|
                0 <= i < mapping.payload_columns@.len() && (#[trigger] mapping.payload_columns@[i])@
                    == column
        },
{
    let dense = dense_columns(mapping.dense_vectors@);
    let sparse = sparse_columns(mapping.sparse_vectors@);
    let payload = text::texts(mapping.payload_columns@);
    let all = mapping.columns();
    assert(all[0] == mapping.id_column@);
    assert forall|i: int| 0 <= i < dense.len() implies all[1 + i] == #[trigger] dense[i] by {}
    assert forall|i: int| 0 <= i < sparse.len() implies all[1 + dense.len() + i]
        == #[trigger] sparse[i] by {}
    assert forall|i: int| 0 <= i < payload.len() implies all[1 + dense.len() + sparse.len() + i]
        == #[trigger] payload[i] by {}
    if all.contains(column) {
        let k = all.index_of(column);
        if k == 0 {
        } else if k < 1 + dense.len() {
            assert(mapping.dense_vectors@[k - 1].1@ == column);
        } else if k < 1 + dense.len() + sparse.len() {
            assert(mapping.sparse_vectors@[k - 1 - dense.len()].1.column@ == column);
        } else {
            assert(mapping.payload_columns@[k - 1 - dense.len() - sparse.len()]@ == column);
        }
    }
    if exists|i: int|
        0 <= i < mapping.dense_vectors@.len() && (#[trigger] mapping.dense_vectors@[i]).1@
            == column {
        let i = choose|i: int|
            0 <= i < mapping.dense_vectors@.len() && (#[trigger] mapping.dense_vectors@[i]).1@
                == column;
        assert(all[1 + i] == dense[i]);
    }
    if exists|i: int|
        0 <= i < mapping.sparse_vectors@.len() && (#[trigger] mapping.sparse_vectors@[i]).1.column@
            == column {
        let i = choose|i: int|
            0 <= i < mapping.sparse_vectors@.len() && (
            #[trigger] mapping.sparse_vectors@[i]).1.column@ == column;
        assert(all[1 + dense.len() + i] == sparse[i]);
    }
    if exists|i: int|
        0 <= i < mapping.payload_columns@.len() && (#[trigger] mapping.payload_columns@[i])@
            == column {
        let i = choose|i: int|
            0 <= i < mapping.payload_columns@.len() && (#[trigger] mapping.payload_columns@[i])@
                == column;
        assert(all[1 + dense.len() + sparse.len() + i] == payload[i]);
    }
}

/// A file is opened exactly where the mapping can be read with and every column that it touches is
/// among the file's fields.
pub proof fn a_file_is_opened_with_every_mapped_column(
    path: Seq<char>,
    fields: Seq<Seq<char>>,
    mapping: ParquetMapping,
)
    ensures
        open_fault(path, fields, mapping) is None <==> mapping.complaint() is None && forall|i: int|
            0 <= i < mapping.columns().len() ==> fields.contains(#[trigger] mapping.columns()[i]),
{
    lemma_absent_column(mapping.columns(), fields, 0);
}

/// The position of a field is that of the first of its name.
pub proof fn a_field_is_found_by_its_name(fields: Seq<Seq<char>>, name: Seq<char>)
    ensures
        0 <= field_index(fields, name) <= fields.len(),
        field_index(fields, name) < fields.len() <==> fields.contains(name),
        field_index(fields, name) < fields.len() ==> fields[field_index(fields, name)] == name,
        forall|i: int| 0 <= i < field_index(fields, name) ==> #[trigger] fields[i] != name,
    decreases fields.len(),
{
    if fields.len() > 0 && fields[0] != name {
        let rest = fields.skip(1);
        a_field_is_found_by_its_name(rest, name);
        let at = field_index(rest, name);
        if at < rest.len() {
            assert(fields[1 + at] == rest[at]);
        }
        if fields.contains(name) {
            let k = fields.index_of(name);
            assert(rest[k - 1] == name);
        }
        assert forall|i: int| 0 <= i < field_index(fields, name) implies #[trigger] fields[i]
            != name by {
            if i > 0 {
                assert(rest[i - 1] == fields[i]);
            }
        }
    } else if fields.len() > 0 {
        assert(fields[0] == name);
    }
}

proof fn lemma_absent_column(wanted: Seq<Seq<char>>, fields: Seq<Seq<char>>, from: int)
    requires
        0 <= from,
    ensures
        absent_column(wanted, fields, from) is None <==> forall|i: int|
            from <= i < wanted.len() ==> fields.contains(#[trigger] wanted[i]),
    decreases wanted.len() - from,
{
    if from < wanted.len() {
        a_field_is_found_by_its_name(fields, wanted[from]);
        lemma_absent_column(wanted, fields, from + 1);
        if absent_column(wanted, fields, from) is None {
            assert forall|i: int| from <= i < wanted.len() implies fields.contains(
                #[trigger] wanted[i],
            ) by {}
        } else {
            assert(fields.contains(wanted[from]) == fields.contains(wanted[from]));
        }
    }
}

/// The payload of a row holds under the name of each payload column what its cell holds, unless the
/// cell is null, and nothing under any other name.
pub proof fn a_payload_holds_every_column_that_is_not_null(
    columns: Seq<(String, TypedCell)>,
    names: Seq<Seq<char>>,
    name: Seq<char>,
)
    requires
        payload_members(columns, names) is Ok,
    ensures
        json::member(payload_members(columns, names)->Ok_0, name) is Some <==> names.contains(name)
            && (column_of(columns, name) matches Some(cell) && cell.cell !is Null),
        names.contains(name) ==> column_of(columns, name) is Some,
        json::member(payload_members(columns, names)->Ok_0, name) matches Some(value) ==> (
        column_of(columns, name) matches Some(cell) && cell_json(
            cell.cell,
            cell.data_type@,
        ) == Ok::<JsonValue, Seq<char>>(value)),
    decreases names.len(),
{
    if names.len() > 0 {
        let rest = names.drop_last();
        let last = names.last();
        a_payload_holds_every_column_that_is_not_null(columns, rest, name);
        let done = payload_members(columns, rest)->Ok_0;
        let cell = column_of(columns, last)->0;
        if cell.cell !is Null {
            let value = cell_json(cell.cell, cell.data_type@)->Ok_0;
            json::storing_a_member_leaves_the_others(done, last, value, name);
        }
        assert(names[names.len() - 1] == last);
        if rest.contains(name) {
            let k = rest.index_of(name);
            assert(names[k] == name);
        }
        if names.contains(name) && name != last {
            let k = names.index_of(name);
            assert(rest[k] == name);
        }
    }
}

/// What a cell holds is the same in JSON: a text, a truth value, an integer of any width, or the
/// number of a float, which is null where it has none.
pub proof fn scalars_keep_their_value_in_json(cell: Cell, data_type: Seq<char>)
    ensures
        cell matches Cell::Text(s) ==> cell_json(cell, data_type) == Ok::<JsonValue, Seq<char>>(
            JsonValue::Text(s@),
        ),
        cell matches Cell::Bool(b) ==> cell_json(cell, data_type) == Ok::<JsonValue, Seq<char>>(
            JsonValue::Bool(b),
        ),
        cell matches Cell::UInt32(n) ==> cell_json(cell, data_type) == Ok::<JsonValue, Seq<char>>(
            JsonValue::Unsigned(n as u64),
        ),
        cell matches Cell::UInt64(n) ==> cell_json(cell, data_type) == Ok::<JsonValue, Seq<char>>(
            JsonValue::Unsigned(n),
        ),
        cell matches Cell::Int32(n) ==> match cell_json(cell, data_type) {
            Ok(JsonValue::Unsigned(m)) => m == n,
            Ok(JsonValue::Negative(m)) => m == n && n < 0,
            _ => false,
        },
        cell matches Cell::Int64(n) ==> match cell_json(cell, data_type) {
            Ok(JsonValue::Unsigned(m)) => m == n,
            Ok(JsonValue::Negative(m)) => m == n && n < 0,
            _ => false,
        },
        cell matches Cell::Float32(_, Some(number)) ==> cell_json(cell, data_type) == Ok::<
            JsonValue,
            Seq<char>,
        >(JsonValue::Decimal(number@)),
        cell matches Cell::Float64(_, Some(number)) ==> cell_json(cell, data_type) == Ok::<
            JsonValue,
            Seq<char>,
        >(JsonValue::Decimal(number@)),
        cell matches Cell::Float32(_, None) ==> cell_json(cell, data_type) == Ok::<
            JsonValue,
            Seq<char>,
        >(JsonValue::Null),
        cell matches Cell::Float64(_, None) ==> cell_json(cell, data_type) == Ok::<
            JsonValue,
            Seq<char>,
        >(JsonValue::Null),
        cell is Float16 || cell is Struct || cell is Other ==> cell_json(cell, data_type) is Err,
{
}

/// A list keeps its length in JSON: a missing element is null there, and every other is what it is by
/// itself.
pub proof fn lists_keep_every_element_in_json(list: ListCell, data_type: Seq<char>)
    ensures
        cell_json(Cell::List(list), data_type) is Ok <==> forall|i: int|
            0 <= i < list.items@.len() ==> (#[trigger] list.items@[i]) is Null || cell_json(
                list.items@[i],
                list.element_type@,
            ) is Ok,
        cell_json(Cell::List(list), data_type) matches Ok(value) ==> (
        value matches JsonValue::List(values) && {
            &&& values.len() == list.items@.len()
            &&& forall|i: int|
                0 <= i < values.len() ==> if list.items@[i] is Null {
                    (#[trigger] values[i]) == JsonValue::Null
                } else {
                    cell_json(list.items@[i], list.element_type@) == Ok::<JsonValue, Seq<char>>(
                        values[i],
                    )
                }
        }),
{
    lemma_items_json(list.items@, list.element_type@);
}

proof fn lemma_items_json(items: Seq<Cell>, element_type: Seq<char>)
    ensures
        items_json(items, element_type) is Ok <==> forall|i: int|
            0 <= i < items.len() ==> (#[trigger] items[i]) is Null || cell_json(
                items[i],
                element_type,
            ) is Ok,
        items_json(items, element_type) matches Ok(values) ==> {
            &&& values.len() == items.len()
            &&& forall|i: int|
                0 <= i < values.len() ==> if items[i] is Null {
                    (#[trigger] values[i]) == JsonValue::Null
                } else {
                    cell_json(items[i], element_type) == Ok::<JsonValue, Seq<char>>(values[i])
                }
        },
    decreases items.len(),
{
    if items.len() > 0 {
        let rest = items.drop_last();
        lemma_items_json(rest, element_type);
        assert forall|i: int| 0 <= i < rest.len() implies #[trigger] rest[i] == items[i] by {}
        assert(items[items.len() - 1] == items.last());
        if items_json(items, element_type) is Ok {
            assert forall|i: int| 0 <= i < items.len() implies (#[trigger] items[i]) is Null
                || cell_json(items[i], element_type) is Ok by {
                if i < rest.len() {
                    assert(rest[i] == items[i]);
                }
            }
        }
    }
}

/// Every column of a file has its own line in a description, with its name and type, in order.
pub proof fn every_column_is_described(columns: Seq<(String, String)>, column: (String, String))
    ensures
        column_lines(Seq::empty()).len() == 0,
        column_lines(columns.push(column)) == column_lines(columns) + ("  "@ + column.0@ + ": "@
            + column.1@ + "\n"@),
{
    assert(columns.push(column).drop_last() =~= columns);
}

} // verus!
