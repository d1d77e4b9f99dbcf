//! Points, and the records that a part file stores of them.
use vstd::prelude::*;
use vstd::string::*;
use crate::dense_codec;
use crate::dense_codec::{DenseBytes, DenseEncoding, RaggedVector};
use crate::json;
use crate::json::Json;
use crate::names;
use crate::names::NameMap;
use crate::partfile::PartProjection;
use crate::text;

verus! {

/// The id of a point: a number, or the 128 bits of a UUID.
#[derive(Debug, Clone, Copy, PartialEq, Eq, Structural)]
pub enum PointId {
    NumId(u64),
    Uuid(u128),
}

/// A sparse vector: dimension indices, and the bit pattern of the value at each.
#[derive(Debug)]
pub struct SparseVector {
    pub indices: Vec<u32>,
    pub values: Vec<u32>,
}

/// A vector of a point. Dense values are held by their single-precision bit patterns.
#[derive(Debug)]
pub enum Vector {
    Dense(Vec<u32>),
    Sparse(SparseVector),
    MultiDense,
}

/// What a vector holds.
pub enum VectorView {
    Dense(Seq<u32>),
    Sparse(Seq<u32>, Seq<u32>),
    MultiDense,
}

impl SparseVector {
    pub open spec fn view(self) -> (Seq<u32>, Seq<u32>) {
        (self.indices@, self.values@)
    }

    /// A second copy of this vector.
    pub fn copy(&self) -> (other: SparseVector)
        ensures
            other@ == self@,
    {
        let indices = self.indices.clone();
        let values = self.values.clone();
        assert(indices@ =~= self.indices@);
        assert(values@ =~= self.values@);
        SparseVector { indices, values }
    }
}

impl Vector {
    pub open spec fn view(self) -> VectorView {
        match self {
            Vector::Dense(values) => VectorView::Dense(values@),
            Vector::Sparse(v) => VectorView::Sparse(v.indices@, v.values@),
            Vector::MultiDense => VectorView::MultiDense,
        }
    }
}

/// The vectors of a point as its source gives them.
pub enum PointVectors {
    /// By name.
    Named(NameMap<Vector>),
    /// One dense vector without a name.
    Single(Vec<u32>),
    /// One multi-dense vector without a name.
    MultiDense,
}

/// The JSON object attached to a point.
#[derive(Debug)]
pub struct Payload(pub Vec<(String, Json)>);

/// A point as its source gives it, and as it is upserted.
pub struct Point {
    pub id: PointId,
    pub vector: PointVectors,
    pub payload: Option<Payload>,
}

/// A point as the bulk segment builder takes it.
pub struct PointToInsert {
    pub external_id: PointId,
    pub version: u64,
    pub vectors: NameMap<Vector>,
    pub payload: Option<Payload>,
}

/// One point as stored in a part file: dense vectors packed at their configured width.
pub struct PartRecord {
    pub id: PointId,
    /// Vector name to packed little-endian elements.
    pub dense: NameMap<DenseBytes>,
    /// Sparse vectors keep their structured form.
    pub sparse: NameMap<SparseVector>,
    pub payload: Option<Payload>,
}

/// A point that a part file cannot hold: it has a multi-dense vector, of that name or without one.
#[derive(Debug)]
pub struct MultiDenseVector {
    pub name: Option<String>,
}

impl MultiDenseVector {
    pub open spec fn text(self) -> Seq<char> {
        match self.name {
            Some(name) => "multi-dense vector '"@ + name@
                + "' is not supported by the part format yet"@,
            None => "multi-dense vectors are not supported by the part format yet"@,
        }
    }

    /// The message for the operator.
    pub fn message(&self) -> (message: String)
        ensures
            message@ == self.text(),
    {
        match &self.name {
            Some(name) => {
                let mut message = "multi-dense vector '".to_owned();
                message.append(name.as_str());
                message.append("' is not supported by the part format yet");
                message
            },
            None => "multi-dense vectors are not supported by the part format yet".to_owned(),
        }
    }
}

/// A record whose dense vector of that name does not decode.
#[derive(Debug)]
pub struct UndecodableVector {
    pub name: String,
    pub fault: RaggedVector,
}

impl UndecodableVector {
    pub open spec fn text(self, point: Seq<char>) -> Seq<char> {
        "dense vector '"@ + self.name@ + "' of point "@ + point + ": "@ + self.fault.text()
    }

    /// The message for the operator, about the point written as `point`.
    pub fn message(&self, point: &str) -> (message: String)
        ensures
            message@ == self.text(point@),
    {
        let mut message = "dense vector '".to_owned();
        message.append(self.name.as_str());
        message.append("' of point ");
        message.append(point);
        message.append(": ");
        message.append(self.fault.message().as_str());
        message
    }
}

/// The name of a vector that has none.
pub const DEFAULT_VECTOR_NAME: &'static str = "";

/// The first multi-dense vector from position `from`, in the order of names.
pub open spec fn first_multi_dense(vectors: Seq<(Seq<char>, Vector)>, from: int) -> Option<Seq<char>>
    decreases vectors.len() - from,
{
    if from < 0 || from >= vectors.len() {
        None
    } else if vectors[from].1 is MultiDense {
        Some(vectors[from].0)
    } else {
        first_multi_dense(vectors, from + 1)
    }
}

/// The encoding that a dense vector of that name is stored under.
pub open spec fn encoding_of(encodings: Seq<(Seq<char>, DenseEncoding)>, name: Seq<char>) -> DenseEncoding {
    match names::value_of(encodings, name) {
        Some(encoding) => encoding,
        None => DenseEncoding::F32,
    }
}

/// Whether `bytes` are the packed form of dense `values` under `encoding`.
pub open spec fn packs<F: Fn(u32) -> u16>(
    encoding: DenseEncoding,
    values: Seq<u32>,
    narrow: F,
    bytes: Seq<u8>,
) -> bool {
    exists|elements: Seq<u32>| #[trigger]
        encoding.stores(values, narrow, elements) && bytes == dense_codec::packed(
            elements,
            encoding.width(),
        )
}

/// Whether the tables of a record hold the vectors from position `from`: each dense one packed
/// under its own name, each sparse one as it is, and nothing else.
pub open spec fn holds_vectors<F: Fn(u32) -> u16>(
    dense: Seq<(Seq<char>, DenseBytes)>,
    sparse: Seq<(Seq<char>, SparseVector)>,
    vectors: Seq<(Seq<char>, Vector)>,
    from: int,
    encodings: Seq<(Seq<char>, DenseEncoding)>,
    narrow: F,
) -> bool {
    &&& names::sorted_keys(dense)
    &&& names::sorted_keys(sparse)
    &&& forall|k: int|
        from <= k < vectors.len() ==> (match #[trigger] vectors[k] {
            (name, Vector::Dense(values)) => !names::has_key(sparse, name) && (
            match names::value_of(dense, name) {
                Some(bytes) => packs(encoding_of(encodings, name), values@, narrow, bytes.0@),
                None => false,
            }),
            (name, Vector::Sparse(v)) => !names::has_key(dense, name) && names::value_of(
                sparse,
                name,
            ) == Some(v),
            (_, Vector::MultiDense) => false,
        })
    &&& forall|name: Seq<char>|
        #![trigger names::has_key(dense, name)]
        #![trigger names::has_key(sparse, name)]
        names::has_key(dense, name) || names::has_key(sparse, name) ==> (exists|k: int|
            from <= k < vectors.len() && #[trigger] vectors[k].0 == name)
}

/// The vectors of a point by name; a vector without a name goes under the default one.
pub open spec fn named_vectors(vector: PointVectors, named: Seq<(Seq<char>, Vector)>) -> bool {
    match vector {
        PointVectors::Named(table) => named == table@,
        PointVectors::Single(values) => named == seq![
            (DEFAULT_VECTOR_NAME@, Vector::Dense(values)),
        ],
        PointVectors::MultiDense => false,
    }
}

impl PartRecord {
    /// Build a record from a point, packing each dense vector at its configured width. `narrow`
    /// gives the half-precision pattern of a single-precision one.
    pub fn from_point<F: Fn(u32) -> u16 + Copy>(
        point: Point,
        encodings: &NameMap<DenseEncoding>,
        narrow: F,
    ) -> (record: Result<Self, MultiDenseVector>)
        requires
            forall|value: u32| #[trigger] narrow.requires((value,)),
        ensures
            match record {
                Ok(r) => {
                    &&& r.id == point.id
                    &&& r.payload == point.payload
                    &&& exists|named: Seq<(Seq<char>, Vector)>| #[trigger]
                        named_vectors(point.vector, named) && first_multi_dense(named, 0) is None
                            && holds_vectors(
                            r.dense@,
                            r.sparse@,
                            named,
                            0,
                            encodings@,
                            narrow,
                        )
                },
                Err(fault) => match point.vector {
                    PointVectors::Named(table) => match fault.name {
                        Some(name) => first_multi_dense(table@, 0) == Some(name@),
                        None => false,
                    },
                    PointVectors::Single(_) => false,
                    PointVectors::MultiDense => fault.name is None,
                },
            },
    {
        let Point { id, vector, payload } = point;
        let ghost given = vector;
        let named = match vector {
            PointVectors::Named(table) => table,
            PointVectors::Single(values) => {
                let mut table: NameMap<Vector> = NameMap::new();
                table.insert(DEFAULT_VECTOR_NAME.to_owned(), Vector::Dense(values));
                proof {
                    lemma_one_entry(table@, DEFAULT_VECTOR_NAME@, Vector::Dense(values));
                }
                table
            },
            PointVectors::MultiDense => {
                return Err(MultiDenseVector { name: None });
            },
        };
        assert(named_vectors(given, named@));
        let ghost vectors = named@;
        let count: usize = named.len();
        let mut i: usize = 0;
        while i < count
            invariant
                i <= count,
                count == named@.len(),
                given == point.vector,
                named_vectors(given, named@),
                first_multi_dense(named@, 0) == first_multi_dense(named@, i as int),
            decreases count - i,
        {
            match named.value_at(i) {
                Vector::MultiDense => {
                    proof {
                        if let PointVectors::Single(values) = given {
                            assert(named@[i as int].1 == Vector::Dense(values));
                        }
                    }
                    return Err(MultiDenseVector { name: Some(named.name_at(i).clone()) });
                },
                _ => {},
            }
            i = i + 1;
        }
        let mut entries = named.into_entries();
        let mut dense: NameMap<DenseBytes> = NameMap::new();
        let mut sparse: NameMap<SparseVector> = NameMap::new();
        proof {
            lemma_no_multi_dense(vectors, 0);
        }
        let ghost whole = entries@;
        // From the back, so that each vector can be moved out.
        while entries.len() > 0
            invariant
                forall|value: u32| #[trigger] narrow.requires((value,)),
                names::sorted_keys(vectors),
                entries@.len() <= vectors.len(),
                forall|k: int|
                    0 <= k < entries@.len() ==> #[trigger] entries@[k].0@ == vectors[k].0
                        && entries@[k].1 == vectors[k].1,
                forall|k: int| 0 <= k < vectors.len() ==> !((#[trigger] vectors[k]).1 is MultiDense),
                holds_vectors(
                    dense@,
                    sparse@,
                    vectors,
                    entries@.len() as int,
                    encodings@,
                    narrow,
                ),
            decreases entries.len(),
        {
            let ghost at = entries@.len() - 1;
            let (name, value) = entries.pop().unwrap();
            let ghost was_dense = dense@;
            let ghost was_sparse = sparse@;
            let ghost name_text = name@;
            match value {
                Vector::Dense(values) => {
                    let encoding = match encodings.get(name.as_str()) {
                        Some(encoding) => *encoding,
                        None => DenseEncoding::F32,
                    };
                    let bytes = encoding.encode(values.as_slice(), narrow);
                    assert(packs(
                        encoding_of(encodings@, name@),
                        values@,
                        narrow,
                        bytes.0@,
                    ));
                    dense.insert(name, bytes);
                    proof {
                        lemma_tail_dense(
                            was_dense,
                            dense@,
                            was_sparse,
                            vectors,
                            at,
                            encodings@,
                            narrow,
                            bytes,
                        );
                    }
                },
                Vector::Sparse(v) => {
                    sparse.insert(name, v);
                    proof {
                        lemma_tail_sparse(
                            was_dense,
                            was_sparse,
                            sparse@,
                            vectors,
                            at,
                            encodings@,
                            narrow,
                            v,
                        );
                    }
                },
                Vector::MultiDense => {
                    assert(vectors[at].1 is MultiDense);
                    assert(false);
                },
            }
        }
        assert(holds_vectors(
            dense@,
            sparse@,
            vectors,
            0,
            encodings@,
            narrow,
        ));
        Ok(PartRecord { id, dense, sparse, payload })
    }
}

/// A table that was empty before one insertion holds one entry.
proof fn lemma_one_entry<T>(table: Seq<(Seq<char>, T)>, name: Seq<char>, value: T)
    requires
        names::sorted_keys(table),
        forall|key: Seq<char>| #[trigger]
            names::value_of(table, key) == (if key == name {
                Some(value)
            } else {
                names::value_of(Seq::<(Seq<char>, T)>::empty(), key)
            }),
    ensures
        table == seq![(name, value)],
{
    assert(names::value_of(table, name) == Some(value));
    let k = choose|k: int| 0 <= k < table.len() && #[trigger] table[k].0 == name;
    assert forall|i: int| 0 <= i < table.len() && #[trigger] table[i] == table[i] implies i
        == k by {
        names::lemma_value_at(table, i);
        assert(names::value_of(table, table[i].0) is Some);
        assert(!names::has_key(Seq::<(Seq<char>, T)>::empty(), table[i].0));
        assert(table[i].0 == name);
        text::text_lt_trichotomy(name, name);
        if i < k {
            assert(text::text_lt(table[i].0, table[k].0));
        } else if k < i {
            assert(text::text_lt(table[k].0, table[i].0));
        }
    }
    if table.len() > 1 {
        assert(table[0] == table[0] && table[1] == table[1]);
    }
    names::lemma_value_at(table, k);
    assert(table =~= seq![(name, value)]);
}

proof fn lemma_no_multi_dense(vectors: Seq<(Seq<char>, Vector)>, from: int)
    requires
        first_multi_dense(vectors, from) is None,
        0 <= from,
    ensures
        forall|k: int| from <= k < vectors.len() ==> !((#[trigger] vectors[k]).1 is MultiDense),
    decreases vectors.len() - from,
{
    if from < vectors.len() {
        lemma_no_multi_dense(vectors, from + 1);
    }
}

proof fn lemma_tail_dense<F: Fn(u32) -> u16>(
    was: Seq<(Seq<char>, DenseBytes)>,
    dense: Seq<(Seq<char>, DenseBytes)>,
    sparse: Seq<(Seq<char>, SparseVector)>,
    vectors: Seq<(Seq<char>, Vector)>,
    at: int,
    encodings: Seq<(Seq<char>, DenseEncoding)>,
    narrow: F,
    bytes: DenseBytes,
)
    requires
        names::sorted_keys(vectors),
        0 <= at < vectors.len(),
        holds_vectors(was, sparse, vectors, at + 1, encodings, narrow),
        vectors[at].1 is Dense,
        packs(encoding_of(encodings, vectors[at].0), vectors[at].1->Dense_0@, narrow, bytes.0@),
        names::sorted_keys(dense),
        forall|key: Seq<char>| #[trigger]
            names::value_of(dense, key) == (if key == vectors[at].0 {
                Some(bytes)
            } else {
                names::value_of(was, key)
            }),
    ensures
        holds_vectors(dense, sparse, vectors, at, encodings, narrow),
{
    let name = vectors[at].0;
    lemma_later_names_differ(vectors, at);
    assert forall|key: Seq<char>| #[trigger]
        names::has_key(dense, key) <==> key == name || names::has_key(was, key) by {
        assert(names::value_of(dense, key) is Some <==> names::has_key(dense, key));
    }
    assert(!names::has_key(sparse, name));
    assert(names::value_of(dense, name) == Some(bytes));
    assert forall|k: int| at <= k < vectors.len() implies (match #[trigger] vectors[k] {
        (n, Vector::Dense(values)) => !names::has_key(sparse, n) && (
        match names::value_of(dense, n) {
            Some(b) => packs(encoding_of(encodings, n), values@, narrow, b.0@),
            None => false,
        }),
        (n, Vector::Sparse(v)) => !names::has_key(dense, n) && names::value_of(sparse, n) == Some(
            v,
        ),
        (_, Vector::MultiDense) => false,
    }) by {
        if k > at {
            assert(vectors[k].0 != name);
        }
    }
}

proof fn lemma_tail_sparse<F: Fn(u32) -> u16>(
    dense: Seq<(Seq<char>, DenseBytes)>,
    was: Seq<(Seq<char>, SparseVector)>,
    sparse: Seq<(Seq<char>, SparseVector)>,
    vectors: Seq<(Seq<char>, Vector)>,
    at: int,
    encodings: Seq<(Seq<char>, DenseEncoding)>,
    narrow: F,
    v: SparseVector,
)
    requires
        names::sorted_keys(vectors),
        0 <= at < vectors.len(),
        holds_vectors(dense, was, vectors, at + 1, encodings, narrow),
        vectors[at].1 == Vector::Sparse(v),
        names::sorted_keys(sparse),
        forall|key: Seq<char>| #[trigger]
            names::value_of(sparse, key) == (if key == vectors[at].0 {
                Some(v)
            } else {
                names::value_of(was, key)
            }),
    ensures
        holds_vectors(dense, sparse, vectors, at, encodings, narrow),
{
    let name = vectors[at].0;
    lemma_later_names_differ(vectors, at);
    assert forall|key: Seq<char>| #[trigger]
        names::has_key(sparse, key) <==> key == name || names::has_key(was, key) by {
        assert(names::value_of(sparse, key) is Some <==> names::has_key(sparse, key));
    }
    assert(!names::has_key(dense, name));
    assert(names::value_of(sparse, name) == Some(v));
    assert forall|k: int| at <= k < vectors.len() implies (match #[trigger] vectors[k] {
        (n, Vector::Dense(values)) => !names::has_key(sparse, n) && (
        match names::value_of(dense, n) {
            Some(b) => packs(encoding_of(encodings, n), values@, narrow, b.0@),
            None => false,
        }),
        (n, Vector::Sparse(w)) => !names::has_key(dense, n) && names::value_of(sparse, n) == Some(
            w,
        ),
        (_, Vector::MultiDense) => false,
    }) by {
        if k > at {
            assert(vectors[k].0 != name);
        }
    }
}

/// The names behind a position are other names.
proof fn lemma_later_names_differ<T>(vectors: Seq<(Seq<char>, T)>, at: int)
    requires
        names::sorted_keys(vectors),
        0 <= at < vectors.len(),
    ensures
        forall|k: int| at < k < vectors.len() ==> #[trigger] vectors[k].0 != vectors[at].0,
{
    assert forall|k: int| at < k < vectors.len() implies #[trigger] vectors[k].0
        != vectors[at].0 by {
        assert(text::text_lt(vectors[at].0, vectors[k].0));
        text::text_lt_trichotomy(vectors[at].0, vectors[k].0);
    }
}

/// Whether the kept dense vector at `i` is not a whole number of elements.
pub open spec fn ragged_at(
    dense: Seq<(Seq<char>, DenseBytes)>,
    kept: Seq<(Seq<char>, DenseEncoding)>,
    i: int,
) -> bool {
    match names::value_of(kept, dense[i].0) {
        Some(encoding) => dense[i].1.0@.len() % encoding.width() != 0,
        None => false,
    }
}

/// The first kept dense vector from position `from` that does not decode. A vector that is not
/// kept is never decoded.
pub open spec fn first_ragged(
    dense: Seq<(Seq<char>, DenseBytes)>,
    kept: Seq<(Seq<char>, DenseEncoding)>,
    from: int,
) -> Option<int>
    decreases dense.len() - from,
{
    if from < 0 || from >= dense.len() {
        None
    } else if ragged_at(dense, kept, from) {
        Some(from)
    } else {
        first_ragged(dense, kept, from + 1)
    }
}

/// Whether `fault` tells of the dense vector at `i`.
pub open spec fn tells_of(
    fault: UndecodableVector,
    dense: Seq<(Seq<char>, DenseBytes)>,
    kept: Seq<(Seq<char>, DenseEncoding)>,
    i: int,
) -> bool {
    &&& 0 <= i < dense.len()
    &&& fault.name@ == dense[i].0
    &&& fault.fault.bytes == dense[i].1.0@.len()
    &&& match names::value_of(kept, dense[i].0) {
        Some(encoding) => fault.fault.width == encoding.width(),
        None => false,
    }
}

/// Whether `values` are what packed `bytes` hold under `encoding`.
pub open spec fn unpacks<F: Fn(u16) -> u32>(
    encoding: DenseEncoding,
    bytes: Seq<u8>,
    widen: F,
    values: Seq<u32>,
) -> bool {
    encoding.loads(dense_codec::unpacked(bytes, encoding.width()), widen, values)
}

/// Whether `vector` is what a projection gives of the dense vector of that name.
pub open spec fn dense_projected<F: Fn(u16) -> u32>(
    dense: Seq<(Seq<char>, DenseBytes)>,
    kept: Seq<(Seq<char>, DenseEncoding)>,
    widen: F,
    name: Seq<char>,
    vector: Option<Vector>,
) -> bool {
    match (names::value_of(dense, name), names::value_of(kept, name)) {
        (Some(bytes), Some(encoding)) => match vector {
            Some(Vector::Dense(values)) => unpacks(encoding, bytes.0@, widen, values@),
            _ => false,
        },
        _ => vector is None,
    }
}

/// Whether `vectors` are what a projection gives of a record: the kept sparse vectors as they are,
/// the kept dense ones decoded, and nothing else. Where one name stands for both, the sparse
/// vector is the one that is given.
pub open spec fn projected<F: Fn(u16) -> u32>(
    record: PartRecord,
    projection: PartProjection,
    widen: F,
    vectors: Seq<(Seq<char>, Vector)>,
) -> bool {
    &&& names::sorted_keys(vectors)
    &&& forall|name: Seq<char>|
        #![trigger names::value_of(vectors, name)]
        match names::value_of(record.sparse@, name) {
            Some(v) if names::has_key(projection.sparse@, name) => match names::value_of(
                vectors,
                name,
            ) {
                Some(Vector::Sparse(w)) => w@ == v@,
                _ => false,
            },
            _ => dense_projected(
                record.dense@,
                projection.dense@,
                widen,
                name,
                names::value_of(vectors, name),
            ),
        }
}

/// The members whose key is kept, in order.
pub open spec fn retained(members: Seq<(Seq<char>, json::JsonValue)>, keep: Seq<(Seq<char>, ())>) -> Seq<
    (Seq<char>, json::JsonValue),
>
    decreases members.len(),
{
    if members.len() == 0 {
        Seq::empty()
    } else if names::has_key(keep, members.last().0) {
        retained(members.drop_last(), keep).push(members.last())
    } else {
        retained(members.drop_last(), keep)
    }
}

/// What a payload holds.
pub open spec fn payload_view(payload: Option<Payload>) -> Option<
    Seq<(Seq<char>, json::JsonValue)>,
> {
    match payload {
        Some(p) => Some(json::members_view(p.0@)),
        None => None,
    }
}

/// What a projection keeps of a payload.
pub open spec fn projected_payload(payload: Option<Payload>, keep: Option<NameMap<()>>) -> Option<
    Seq<(Seq<char>, json::JsonValue)>,
> {
    match (payload, keep) {
        (Some(p), Some(k)) => Some(retained(json::members_view(p.0@), k@)),
        _ => payload_view(payload),
    }
}

fn project_dense<F: Fn(u16) -> u32 + Copy>(
    dense: &NameMap<DenseBytes>,
    kept: &NameMap<DenseEncoding>,
    widen: F,
) -> (vectors: Result<NameMap<Vector>, UndecodableVector>)
    requires
        forall|half: u16| #[trigger] widen.requires((half,)),
    ensures
        match vectors {
            Ok(table) => {
                &&& first_ragged(dense@, kept@, 0) is None
                &&& names::sorted_keys(table@)
                &&& forall|name: Seq<char>| #[trigger]
                    dense_projected(
                        dense@,
                        kept@,
                        widen,
                        name,
                        names::value_of(table@, name),
                    )
            },
            Err(fault) => match first_ragged(dense@, kept@, 0) {
                Some(i) => tells_of(fault, dense@, kept@, i),
                None => false,
            },
        },
{
    let mut table: NameMap<Vector> = NameMap::new();
    let count: usize = dense.len();
    let mut i: usize = 0;
    while i < count
        invariant
            i <= count,
            count == dense@.len(),
            names::sorted_keys(dense@),
            names::sorted_keys(table@),
            forall|half: u16| #[trigger] widen.requires((half,)),
            first_ragged(dense@, kept@, 0) == first_ragged(dense@, kept@, i as int),
            forall|k: int|
                0 <= k < i ==> dense_projected(
                    dense@,
                    kept@,
                    widen,
                    (#[trigger] dense@[k]).0,
                    names::value_of(table@, dense@[k].0),
                ),
            forall|name: Seq<char>| #[trigger]
                names::has_key(table@, name) ==> (exists|k: int|
                    0 <= k < i && #[trigger] dense@[k].0 == name),
        decreases count - i,
    {
        let name = dense.name_at(i);
        let bytes = dense.value_at(i);
        proof {
            names::lemma_value_at(dense@, i as int);
            lemma_earlier_names_differ(dense@, i as int);
        }
        let ghost was = table@;
        if let Some(encoding) = kept.get(name.as_str()) {
            match encoding.decode(bytes, widen) {
                Err(fault) => {
                    return Err(UndecodableVector { name: name.clone(), fault });
                },
                Ok(values) => {
                    table.insert(name.clone(), Vector::Dense(values));
                    assert(names::value_of(table@, dense@[i as int].0) == Some(
                        Vector::Dense(values),
                    ));
                },
            }
        } else {
            assert(!names::has_key(was, name@));
        }
        assert forall|k: int| 0 <= k < i + 1 implies dense_projected(
            dense@,
            kept@,
            widen,
            (#[trigger] dense@[k]).0,
            names::value_of(table@, dense@[k].0),
        ) by {
            if k < i {
                assert(dense@[k].0 != dense@[i as int].0);
            }
        }
        assert forall|other: Seq<char>| #[trigger] names::has_key(table@, other) implies (exists|
            k: int,
        |
            0 <= k < i + 1 && #[trigger] dense@[k].0 == other) by {
            assert(names::value_of(table@, other) is Some);
            if other != dense@[i as int].0 {
                assert(names::value_of(was, other) is Some);
                assert(names::has_key(was, other));
                let k = choose|k: int| 0 <= k < i && #[trigger] dense@[k].0 == other;
                assert(dense@[k].0 == other);
            }
        }
        i = i + 1;
    }
    assert forall|name: Seq<char>| #[trigger]
        dense_projected(dense@, kept@, widen, name, names::value_of(table@, name)) by {
        if names::has_key(dense@, name) {
            let k = choose|k: int| 0 <= k < dense@.len() && #[trigger] dense@[k].0 == name;
            assert(dense_projected(
                dense@,
                kept@,
                widen,
                dense@[k].0,
                names::value_of(table@, dense@[k].0),
            ));
        } else if names::has_key(table@, name) {
            let k = choose|k: int| 0 <= k < count && #[trigger] dense@[k].0 == name;
            assert(dense@[k].0 == name);
        }
    }
    Ok(table)
}

/// The names before a position are other names.
proof fn lemma_earlier_names_differ<T>(vectors: Seq<(Seq<char>, T)>, at: int)
    requires
        names::sorted_keys(vectors),
        0 <= at < vectors.len(),
    ensures
        forall|k: int| 0 <= k < at ==> #[trigger] vectors[k].0 != vectors[at].0,
{
    assert forall|k: int| 0 <= k < at implies #[trigger] vectors[k].0 != vectors[at].0 by {
        assert(text::text_lt(vectors[k].0, vectors[at].0));
        text::text_lt_trichotomy(vectors[k].0, vectors[at].0);
    }
}

/// Adds the kept sparse vectors to the decoded dense ones.
fn add_sparse<F: Fn(u16) -> u32>(
    record: Ghost<PartRecord>,
    sparse: NameMap<SparseVector>,
    projection: &PartProjection,
    widen: F,
    vectors: NameMap<Vector>,
) -> (all: NameMap<Vector>)
    requires
        names::sorted_keys(vectors@),
        record@.sparse@.len() == sparse@.len(),
        forall|k: int|
            0 <= k < sparse@.len() ==> (#[trigger] sparse@[k]).0 == record@.sparse@[k].0
                && sparse@[k].1@ == record@.sparse@[k].1@,
        forall|name: Seq<char>| #[trigger]
            dense_projected(
                record@.dense@,
                projection.dense@,
                widen,
                name,
                names::value_of(vectors@, name),
            ),
    ensures
        projected(record@, *projection, widen, all@),
{
    let mut all = vectors;
    let ghost whole = sparse@;
    let ghost given = record@.sparse@;
    let mut entries = sparse.into_entries();
    proof {
        assert forall|i: int, j: int| 0 <= i < j < given.len() implies text::text_lt(
            #[trigger] given[i].0,
            #[trigger] given[j].0,
        ) by {
            assert(whole[i].0 == given[i].0 && whole[j].0 == given[j].0);
        }
    }
    while entries.len() > 0
        invariant
            given == record@.sparse@,
            names::sorted_keys(given),
            names::sorted_keys(all@),
            entries@.len() <= given.len(),
            forall|k: int|
                0 <= k < entries@.len() ==> #[trigger] entries@[k].0@ == given[k].0
                    && entries@[k].1@ == given[k].1@,
            forall|name: Seq<char>|
                #![trigger names::value_of(all@, name)]
                if exists|k: int|
                    entries@.len() <= k < given.len() && #[trigger] given[k].0 == name
                        && names::has_key(projection.sparse@, name) {
                    match (names::value_of(all@, name), names::value_of(given, name)) {
                        (Some(Vector::Sparse(w)), Some(v)) => w@ == v@,
                        _ => false,
                    }
                } else {
                    dense_projected(
                        record@.dense@,
                        projection.dense@,
                        widen,
                        name,
                        names::value_of(all@, name),
                    )
                },
        decreases entries.len(),
    {
        let ghost at = entries@.len() - 1;
        let ghost listed = entries@;
        let (name, vector) = entries.pop().unwrap();
        let ghost was = all@;
        let ghost added = name@;
        proof {
            names::lemma_value_at(given, at);
            lemma_later_names_differ(given, at);
            assert forall|k: int| 0 <= k < entries@.len() implies #[trigger] entries@[k].0@
                == given[k].0 && entries@[k].1@ == given[k].1@ by {
                assert(entries@[k] == listed[k]);
                assert(listed[k].0@ == given[k].0);
            }
        }
        if projection.sparse.contains(name.as_str()) {
            all.insert(name, Vector::Sparse(vector));
        }
        assert forall|other: Seq<char>|
            #![trigger names::value_of(all@, other)]
            if exists|k: int|
                at <= k < given.len() && #[trigger] given[k].0 == other && names::has_key(
                    projection.sparse@,
                    other,
                ) {
                match (names::value_of(all@, other), names::value_of(given, other)) {
                    (Some(Vector::Sparse(w)), Some(v)) => w@ == v@,
                    _ => false,
                }
            } else {
                dense_projected(
                    record@.dense@,
                    projection.dense@,
                    widen,
                    other,
                    names::value_of(all@, other),
                )
            } by {
            assert(names::value_of(was, other) == names::value_of(was, other));
            assert(given[at].0 == added);
        }
    }
    assert forall|name: Seq<char>|
        #![trigger names::value_of(all@, name)]
        match names::value_of(record@.sparse@, name) {
            Some(v) if names::has_key(projection.sparse@, name) => match names::value_of(
                all@,
                name,
            ) {
                Some(Vector::Sparse(w)) => w@ == v@,
                _ => false,
            },
            _ => dense_projected(
                record@.dense@,
                projection.dense@,
                widen,
                name,
                names::value_of(all@, name),
            ),
        } by {
        if names::has_key(given, name) {
            let k = choose|k: int| 0 <= k < given.len() && #[trigger] given[k].0 == name;
            assert(0 <= k < given.len() && given[k].0 == name);
        }
    }
    all
}

/// Drops the members whose key is not kept.
fn retain(payload: Payload, keep: &Option<NameMap<()>>) -> (rest: Payload)
    ensures
        payload_view(Some(rest)) == projected_payload(Some(payload), *keep),
{
    let keys = match keep {
        Some(keys) => keys,
        None => {
            return payload;
        },
    };
    let mut members = payload.0;
    let ghost whole = members@;
    let mut i: usize = 0;
    let ghost mut seen: int = 0;
    assert(json::members_view(whole.take(0)) =~= Seq::empty());
    assert(members@ =~= members@.take(0) + whole.skip(0));
    while i < members.len()
        invariant
            i <= members.len(),
            0 <= seen <= whole.len(),
            members@.skip(i as int) == whole.skip(seen),
            json::members_view(members@.take(i as int)) == retained(
                json::members_view(whole.take(seen)),
                keys@,
            ),
        decreases members.len() - i,
    {
        assert(members@.skip(i as int).len() == members@.len() - i);
        assert(whole.skip(seen).len() == whole.len() - seen);
        assert(members@.skip(i as int)[0] == members@[i as int]);
        assert(whole.skip(seen)[0] == whole[seen]);
        assert(whole.take(seen + 1).drop_last() =~= whole.take(seen));
        assert(json::members_view(whole.take(seen + 1)).drop_last() =~= json::members_view(
            whole.take(seen),
        ));
        assert(whole.skip(seen).skip(1) =~= whole.skip(seen + 1));
        assert(members@.skip(i as int).skip(1) =~= members@.skip(i + 1));
        if keys.contains(members[i].0.as_str()) {
            assert(members@.take(i + 1).drop_last() =~= members@.take(i as int));
            i = i + 1;
        } else {
            let ghost was = members@;
            members.remove(i);
            assert(members@.skip(i as int) =~= was.skip(i + 1));
            assert(members@.take(i as int) =~= was.take(i as int));
        }
        proof {
            seen = seen + 1;
        }
    }
    assert(members@.skip(i as int).len() == 0);
    assert(whole.take(seen) =~= whole);
    assert(members@.take(i as int) =~= members@);
    Payload(members)
}

fn copy_sparse(sparse: &NameMap<SparseVector>) -> (other: NameMap<SparseVector>)
    ensures
        names::sorted_keys(other@),
        names::sorted_keys(sparse@),
        other@.len() == sparse@.len(),
        forall|k: int|
            0 <= k < other@.len() ==> (#[trigger] other@[k]).0 == sparse@[k].0 && other@[k].1@
                == sparse@[k].1@,
{
    let mut other: NameMap<SparseVector> = NameMap::new();
    let count: usize = sparse.len();
    let mut i: usize = 0;
    while i < count
        invariant
            i <= count,
            count == sparse@.len(),
            names::sorted_keys(sparse@),
            names::sorted_keys(other@),
            other@.len() == i,
            forall|k: int|
                0 <= k < i ==> (#[trigger] other@[k]).0 == sparse@[k].0 && other@[k].1@
                    == sparse@[k].1@,
        decreases count - i,
    {
        let name = sparse.name_at(i);
        let vector = sparse.value_at(i).copy();
        other.append(name.clone(), vector);
        i = i + 1;
    }
    other
}

impl PartRecord {
    /// Convert into the type the bulk segment builder accepts, consuming the record.
    ///
    /// What the projection excludes is skipped, so a dropped dense vector is never decoded and a
    /// dropped payload key is never copied. `widen` gives the single-precision pattern of a
    /// half-precision one.
    pub fn into_point_to_insert<F: Fn(u16) -> u32 + Copy>(
        self,
        projection: &PartProjection,
        version: u64,
        widen: F,
    ) -> (point: Result<PointToInsert, UndecodableVector>)
        requires
            forall|half: u16| #[trigger] widen.requires((half,)),
        ensures
            match point {
                Ok(p) => {
                    &&& first_ragged(self.dense@, projection.dense@, 0) is None
                    &&& p.external_id == self.id
                    &&& p.version == version
                    &&& projected(self, *projection, widen, p.vectors@)
                    &&& payload_view(p.payload) == projected_payload(
                        self.payload,
                        projection.payload,
                    )
                },
                Err(fault) => match first_ragged(self.dense@, projection.dense@, 0) {
                    Some(i) => tells_of(fault, self.dense@, projection.dense@, i),
                    None => false,
                },
            },
    {
        let ghost whole = self;
        let PartRecord { id, dense, sparse, payload } = self;
        let vectors = match project_dense(&dense, &projection.dense, widen) {
            Ok(vectors) => vectors,
            Err(fault) => {
                return Err(fault);
            },
        };
        let vectors = add_sparse(Ghost(whole), sparse, projection, widen, vectors);
        let payload = match payload {
            Some(payload) => Some(retain(payload, &projection.payload)),
            None => None,
        };
        Ok(PointToInsert { external_id: id, version, vectors, payload })
    }

    /// Convert into the type that is upserted, applying the same projection.
    pub fn to_point<F: Fn(u16) -> u32 + Copy>(
        &self,
        projection: &PartProjection,
        widen: F,
    ) -> (point: Result<Point, UndecodableVector>)
        requires
            forall|half: u16| #[trigger] widen.requires((half,)),
        ensures
            match point {
                Ok(p) => {
                    &&& first_ragged(self.dense@, projection.dense@, 0) is None
                    &&& p.id == self.id
                    &&& match p.vector {
                        PointVectors::Named(vectors) => projected(
                            *self,
                            *projection,
                            widen,
                            vectors@,
                        ),
                        _ => false,
                    }
                    &&& payload_view(p.payload) == projected_payload(
                        self.payload,
                        projection.payload,
                    )
                },
                Err(fault) => match first_ragged(self.dense@, projection.dense@, 0) {
                    Some(i) => tells_of(fault, self.dense@, projection.dense@, i),
                    None => false,
                },
            },
    {
        let vectors = match project_dense(&self.dense, &projection.dense, widen) {
            Ok(vectors) => vectors,
            Err(fault) => {
                return Err(fault);
            },
        };
        let sparse = copy_sparse(&self.sparse);
        let vectors = add_sparse(Ghost(*self), sparse, projection, widen, vectors);
        let payload = match &self.payload {
            Some(payload) => {
                let copied = Payload(json::copy_members(&payload.0));
                Some(retain(copied, &projection.payload))
            },
            None => None,
        };
        Ok(Point { id: self.id, vector: PointVectors::Named(vectors), payload })
    }
}

/// Whether two tables hold the same vectors under the same names.
pub open spec fn same_vectors(a: Seq<(Seq<char>, Vector)>, b: Seq<(Seq<char>, Vector)>) -> bool {
    forall|name: Seq<char>|
        #![trigger names::value_of(a, name)]
        #![trigger names::value_of(b, name)]
        match (names::value_of(a, name), names::value_of(b, name)) {
            (Some(v), Some(w)) => v@ == w@,
            (None, None) => true,
            _ => false,
        }
}

/// Whether a projection keeps every one of the vectors, the dense ones at the width that they are
/// stored under.
pub open spec fn keeps_all(
    projection: PartProjection,
    vectors: Seq<(Seq<char>, Vector)>,
    encodings: Seq<(Seq<char>, DenseEncoding)>,
) -> bool {
    forall|k: int|
        0 <= k < vectors.len() ==> (match #[trigger] vectors[k] {
            (name, Vector::Dense(_)) => names::value_of(projection.dense@, name) == Some(
                encoding_of(encodings, name),
            ),
            (name, Vector::Sparse(_)) => names::has_key(projection.sparse@, name),
            (_, Vector::MultiDense) => false,
        })
}

/// Whether element `i` of the vector at position `k` is stored at half precision.
pub open spec fn stored_half(
    vectors: Seq<(Seq<char>, Vector)>,
    encodings: Seq<(Seq<char>, DenseEncoding)>,
    k: int,
    i: int,
) -> bool {
    &&& 0 <= k < vectors.len()
    &&& encoding_of(encodings, vectors[k].0) == DenseEncoding::F16
    &&& match vectors[k].1 {
        Vector::Dense(values) => 0 <= i < values@.len(),
        _ => false,
    }
}

/// Whether widening undoes narrowing on every value that is stored at half precision.
pub open spec fn narrows_exactly<N: Fn(u32) -> u16, W: Fn(u16) -> u32>(
    vectors: Seq<(Seq<char>, Vector)>,
    encodings: Seq<(Seq<char>, DenseEncoding)>,
    narrow: N,
    widen: W,
) -> bool {
    forall|k: int, i: int, half: u16, wide: u32|
        stored_half(vectors, encodings, k, i) && #[trigger] narrow.ensures(
            (dense_value(vectors, k, i),),
            half,
        ) && #[trigger] widen.ensures((half,), wide) ==> wide == dense_value(vectors, k, i)
}

/// Element `i` of the dense vector at position `k`.
pub open spec fn dense_value(vectors: Seq<(Seq<char>, Vector)>, k: int, i: int) -> u32 {
    match vectors[k].1 {
        Vector::Dense(values) => values@[i],
        _ => 0,
    }
}

proof fn lemma_whole_elements(
    dense: Seq<(Seq<char>, DenseBytes)>,
    kept: Seq<(Seq<char>, DenseEncoding)>,
    from: int,
)
    requires
        0 <= from <= dense.len(),
        forall|i: int| from <= i < dense.len() ==> !#[trigger] ragged_at(dense, kept, i),
    ensures
        first_ragged(dense, kept, from) is None,
    decreases dense.len() - from,
{
    if from < dense.len() {
        assert(!ragged_at(dense, kept, from));
        lemma_whole_elements(dense, kept, from + 1);
    }
}

/// A packed dense vector that is read under the encoding it was stored under is whole, and holds what
/// was stored.
proof fn lemma_unpacks<N: Fn(u32) -> u16, W: Fn(u16) -> u32>(
    encoding: DenseEncoding,
    values: Seq<u32>,
    narrow: N,
    widen: W,
    bytes: Seq<u8>,
    back: Seq<u32>,
)
    requires
        packs(encoding, values, narrow, bytes),
        encoding == DenseEncoding::F16 ==> forall|i: int, half: u16, wide: u32|
            0 <= i < values.len() && #[trigger] narrow.ensures((values[i],), half)
                && #[trigger] widen.ensures((half,), wide) ==> wide == values[i],
        unpacks(encoding, bytes, widen, back),
    ensures
        back == values,
{
    let elements = choose|elements: Seq<u32>| #[trigger]
        encoding.stores(values, narrow, elements) && bytes == dense_codec::packed(
            elements,
            encoding.width(),
        );
    dense_codec::encoding_round_trip(encoding, values, narrow, widen, elements, back);
}

proof fn lemma_packs_whole<N: Fn(u32) -> u16>(
    encoding: DenseEncoding,
    values: Seq<u32>,
    narrow: N,
    bytes: Seq<u8>,
)
    requires
        packs(encoding, values, narrow, bytes),
    ensures
        bytes.len() % encoding.width() == 0,
{
    let elements = choose|elements: Seq<u32>| #[trigger]
        encoding.stores(values, narrow, elements) && bytes == dense_codec::packed(
            elements,
            encoding.width(),
        );
    dense_codec::lemma_packed_len(elements, encoding.width());
    assert((elements.len() * encoding.width()) % encoding.width() == 0) by {
        vstd::arithmetic::div_mod::lemma_mod_multiples_basic(
            elements.len() as int,
            encoding.width() as int,
        );
    }
}

/// What is read of a record is what was written: under a projection that keeps everything, a record
/// made of a point's vectors decodes, and gives those vectors back, provided that widening undoes
/// narrowing on the values that are stored at half precision.
pub proof fn points_read_back<N: Fn(u32) -> u16, W: Fn(u16) -> u32>(
    record: PartRecord,
    given: Seq<(Seq<char>, Vector)>,
    encodings: Seq<(Seq<char>, DenseEncoding)>,
    narrow: N,
    projection: PartProjection,
    widen: W,
    back: Seq<(Seq<char>, Vector)>,
)
    requires
        names::sorted_keys(given),
        holds_vectors(record.dense@, record.sparse@, given, 0, encodings, narrow),
        keeps_all(projection, given, encodings),
        narrows_exactly(given, encodings, narrow, widen),
        projected(record, projection, widen, back),
    ensures
        first_ragged(record.dense@, projection.dense@, 0) is None,
        same_vectors(given, back),
{
    assert forall|i: int| 0 <= i < record.dense@.len() implies !#[trigger] ragged_at(
        record.dense@,
        projection.dense@,
        i,
    ) by {
        let name = record.dense@[i].0;
        names::lemma_value_at(record.dense@, i);
        assert(names::has_key(record.dense@, name));
        let k = choose|k: int| 0 <= k < given.len() && #[trigger] given[k].0 == name;
        assert(given[k].0 == name);
        match given[k] {
            (_, Vector::Dense(values)) => {
                lemma_packs_whole(
                    encoding_of(encodings, name),
                    values@,
                    narrow,
                    record.dense@[i].1.0@,
                );
            },
            _ => {},
        }
    }
    lemma_whole_elements(record.dense@, projection.dense@, 0);
    assert forall|name: Seq<char>|
        #![trigger names::value_of(given, name)]
        #![trigger names::value_of(back, name)]
        match (names::value_of(given, name), names::value_of(back, name)) {
            (Some(v), Some(w)) => v@ == w@,
            (None, None) => true,
            _ => false,
        } by {
        let found = names::value_of(back, name);
        if names::has_key(given, name) {
            let k = choose|k: int| 0 <= k < given.len() && #[trigger] given[k].0 == name;
            names::lemma_value_at(given, k);
            lemma_one_reads_back(
                record,
                given,
                encodings,
                narrow,
                projection,
                widen,
                back,
                k,
            );
        } else {
            assert(!names::has_key(record.dense@, name));
            assert(!names::has_key(record.sparse@, name));
            assert(names::value_of(record.sparse@, name) is None);
            assert(dense_projected(record.dense@, projection.dense@, widen, name, found));
        }
    }
}

proof fn lemma_one_reads_back<N: Fn(u32) -> u16, W: Fn(u16) -> u32>(
    record: PartRecord,
    given: Seq<(Seq<char>, Vector)>,
    encodings: Seq<(Seq<char>, DenseEncoding)>,
    narrow: N,
    projection: PartProjection,
    widen: W,
    back: Seq<(Seq<char>, Vector)>,
    k: int,
)
    requires
        0 <= k < given.len(),
        holds_vectors(record.dense@, record.sparse@, given, 0, encodings, narrow),
        keeps_all(projection, given, encodings),
        narrows_exactly(given, encodings, narrow, widen),
        projected(record, projection, widen, back),
    ensures
        match names::value_of(back, given[k].0) {
            Some(w) => given[k].1@ == w@,
            None => false,
        },
{
    let name = given[k].0;
    let found = names::value_of(back, name);
    match given[k] {
        (_, Vector::Dense(values)) => {
            assert(!names::has_key(record.sparse@, name));
            assert(names::value_of(record.sparse@, name) is None);
            assert(dense_projected(record.dense@, projection.dense@, widen, name, found));
            let encoding = encoding_of(encodings, name);
            let bytes = names::value_of(record.dense@, name)->0;
            let read = found->0->Dense_0;
            assert forall|i: int, half: u16, wide: u32|
                encoding == DenseEncoding::F16 && 0 <= i < values@.len()
                    && #[trigger] narrow.ensures((values@[i],), half) && #[trigger] widen.ensures(
                    (half,),
                    wide,
                ) implies wide == values@[i] by {
                assert(dense_value(given, k, i) == values@[i]);
                assert(narrow.ensures((dense_value(given, k, i),), half));
            }
            lemma_unpacks(encoding, values@, narrow, widen, bytes.0@, read@);
        },
        (_, Vector::Sparse(v)) => {
            assert(names::value_of(record.sparse@, name) == Some(v));
            assert(names::has_key(projection.sparse@, name));
        },
        (_, Vector::MultiDense) => {},
    }
}

/// Both build routes see the same point: whatever a projection gives of a record, it gives to both,
/// as long as widening gives one answer.
pub proof fn both_routes_see_the_same_vectors<W: Fn(u16) -> u32>(
    record: PartRecord,
    projection: PartProjection,
    widen: W,
    inserted: Seq<(Seq<char>, Vector)>,
    upserted: Seq<(Seq<char>, Vector)>,
)
    requires
        forall|half: u16, x: u32, y: u32| #[trigger]
            widen.ensures((half,), x) && #[trigger] widen.ensures((half,), y) ==> x == y,
        projected(record, projection, widen, inserted),
        projected(record, projection, widen, upserted),
    ensures
        same_vectors(inserted, upserted),
{
    assert forall|name: Seq<char>|
        #![trigger names::value_of(inserted, name)]
        #![trigger names::value_of(upserted, name)]
        match (names::value_of(inserted, name), names::value_of(upserted, name)) {
            (Some(v), Some(w)) => v@ == w@,
            (None, None) => true,
            _ => false,
        } by {
        let a = names::value_of(inserted, name);
        let b = names::value_of(upserted, name);
        match names::value_of(record.sparse@, name) {
            Some(v) if names::has_key(projection.sparse@, name) => {},
            _ => {
                assert(dense_projected(record.dense@, projection.dense@, widen, name, a));
                assert(dense_projected(record.dense@, projection.dense@, widen, name, b));
                match (a, b) {
                    (Some(Vector::Dense(m)), Some(Vector::Dense(n))) => {
                        assert(m@ =~= n@);
                    },
                    _ => {},
                }
            },
        }
    }
}

/// A point is taken exactly where none of its vectors holds several dense ones.
pub proof fn only_multi_dense_vectors_are_refused(vectors: Seq<(Seq<char>, Vector)>)
    ensures
        first_multi_dense(vectors, 0) is None <==> forall|k: int|
            0 <= k < vectors.len() ==> (#[trigger] vectors[k]).1 !is MultiDense,
        first_multi_dense(vectors, 0) matches Some(name) ==> exists|k: int|
            0 <= k < vectors.len() && (#[trigger] vectors[k]).1 is MultiDense && vectors[k].0
                == name,
{
    lemma_multi_dense(vectors, 0);
}

proof fn lemma_multi_dense(vectors: Seq<(Seq<char>, Vector)>, from: int)
    requires
        0 <= from,
    ensures
        first_multi_dense(vectors, from) is None <==> forall|k: int|
            from <= k < vectors.len() ==> (#[trigger] vectors[k]).1 !is MultiDense,
        first_multi_dense(vectors, from) matches Some(name) ==> exists|k: int|
            from <= k < vectors.len() && (#[trigger] vectors[k]).1 is MultiDense && vectors[k].0
                == name,
    decreases vectors.len() - from,
{
    if from < vectors.len() {
        lemma_multi_dense(vectors, from + 1);
        if first_multi_dense(vectors, from) is None {
            assert forall|k: int| from <= k < vectors.len() implies (
            #[trigger] vectors[k]).1 !is MultiDense by {}
        } else if !(vectors[from].1 is MultiDense) {
            let name = first_multi_dense(vectors, from + 1)->0;
            let k = choose|k: int|
                from + 1 <= k < vectors.len() && (#[trigger] vectors[k]).1 is MultiDense
                    && vectors[k].0 == name;
            assert(vectors[k].1 is MultiDense);
        }
    }
}

/// A vector without a name goes under the empty one, whole.
pub proof fn an_unnamed_vector_goes_under_the_empty_name(
    values: Vec<u32>,
    named: Seq<(Seq<char>, Vector)>,
)
    requires
        named_vectors(PointVectors::Single(values), named),
    ensures
        named.len() == 1,
        named[0].0.len() == 0,
        named[0].1 == Vector::Dense(values),
{
    reveal_strlit("");
}

/// A record decodes exactly where every dense vector that is kept is a whole number of elements, of
/// two bytes at half precision and of four otherwise. One that is not kept may be anything.
pub proof fn only_whole_elements_decode(
    dense: Seq<(Seq<char>, DenseBytes)>,
    kept: Seq<(Seq<char>, DenseEncoding)>,
)
    ensures
        first_ragged(dense, kept, 0) is None <==> forall|i: int|
            0 <= i < dense.len() ==> match names::value_of(kept, (#[trigger] dense[i]).0) {
                Some(DenseEncoding::F16) => dense[i].1.0@.len() % 2 == 0,
                Some(DenseEncoding::F32) => dense[i].1.0@.len() % 4 == 0,
                None => true,
            },
{
    lemma_whole_elements_decode(dense, kept, 0);
}

proof fn lemma_whole_elements_decode(
    dense: Seq<(Seq<char>, DenseBytes)>,
    kept: Seq<(Seq<char>, DenseEncoding)>,
    from: int,
)
    requires
        0 <= from,
    ensures
        first_ragged(dense, kept, from) is None <==> forall|i: int|
            from <= i < dense.len() ==> match names::value_of(kept, (#[trigger] dense[i]).0) {
                Some(DenseEncoding::F16) => dense[i].1.0@.len() % 2 == 0,
                Some(DenseEncoding::F32) => dense[i].1.0@.len() % 4 == 0,
                None => true,
            },
    decreases dense.len() - from,
{
    if from < dense.len() {
        lemma_whole_elements_decode(dense, kept, from + 1);
        if first_ragged(dense, kept, from) is None {
            assert forall|i: int| from <= i < dense.len() implies match names::value_of(
                kept,
                (#[trigger] dense[i]).0,
            ) {
                Some(DenseEncoding::F16) => dense[i].1.0@.len() % 2 == 0,
                Some(DenseEncoding::F32) => dense[i].1.0@.len() % 4 == 0,
                None => true,
            } by {}
        } else {
            assert(dense[from].0 == dense[from].0);
        }
    }
}

/// A projection gives a vector under a name exactly where the record has one of that name which is
/// kept, and a sparse one before a dense one.
pub proof fn a_projection_gives_the_kept_vectors<F: Fn(u16) -> u32>(
    record: PartRecord,
    projection: PartProjection,
    widen: F,
    vectors: Seq<(Seq<char>, Vector)>,
    name: Seq<char>,
)
    requires
        projected(record, projection, widen, vectors),
    ensures
        ({
            let sparse = names::has_key(record.sparse@, name) && names::has_key(
                projection.sparse@,
                name,
            );
            let dense = names::has_key(record.dense@, name) && names::has_key(
                projection.dense@,
                name,
            );
            &&& names::has_key(vectors, name) <==> sparse || dense
            &&& sparse ==> (names::value_of(vectors, name) matches Some(Vector::Sparse(given))
                && given@ == names::value_of(record.sparse@, name)->0@)
            &&& !sparse && dense ==> names::value_of(vectors, name) matches Some(Vector::Dense(_))
        }),
{
    let given = names::value_of(vectors, name);
    assert(given is Some <==> names::has_key(vectors, name));
}

/// A payload keeps under every kept key what it held there, and nothing under any other.
pub proof fn kept_keys_keep_their_values(
    members: Seq<(Seq<char>, json::JsonValue)>,
    keep: Seq<(Seq<char>, ())>,
    key: Seq<char>,
)
    ensures
        json::member(retained(members, keep), key) == (if names::has_key(keep, key) {
            json::member(members, key)
        } else {
            None
        }),
    decreases members.len(),
{
    if members.len() > 0 {
        let rest = members.drop_last();
        let last = members.last();
        kept_keys_keep_their_values(rest, keep, key);
        assert(members =~= rest.push(last));
        json::lemma_member_behind(rest, last, key);
        json::lemma_member_behind(retained(rest, keep), last, key);
    }
}

/// A payload is kept as it is where no keys are named, and is there exactly where it was.
pub proof fn a_payload_stays_where_it_was(payload: Option<Payload>, keep: Option<NameMap<()>>)
    ensures
        projected_payload(payload, keep) is Some <==> payload is Some,
        keep is None ==> projected_payload(payload, keep) == payload_view(payload),
        payload matches Some(p) ==> (keep matches Some(k) ==> forall|key: Seq<char>| #[trigger]
            json::member(projected_payload(payload, keep)->0, key) == (if names::has_key(k@, key) {
                json::member(json::members_view(p.0@), key)
            } else {
                None
            })),
{
    match (payload, keep) {
        (Some(p), Some(k)) => {
            let members = json::members_view(p.0@);
            assert forall|key: Seq<char>| #[trigger] json::member(
                projected_payload(payload, keep)->0,
                key,
            ) == (if names::has_key(k@, key) {
                json::member(members, key)
            } else {
                None
            }) by {
                kept_keys_keep_their_values(members, k@, key);
            }
        },
        _ => {},
    }
}

} // verus!
