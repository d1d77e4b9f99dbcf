//! Compact encoding for dense vectors in part files.
//!
//! A dense vector is held as a raw little-endian byte string at the element width that the
//! collection declares: two bytes per element for `float16`, four otherwise, with no tag per
//! value. Elements are handled here by their bit patterns; widening and narrowing between the
//! element types happens where points enter and leave the pipeline.
use vstd::prelude::*;
use crate::bytes;
use crate::config::{LoadedConfig, VectorParams};
use crate::names;
use crate::names::NameMap;
use crate::text;
use vstd::string::*;

verus! {

/// The element type a vector's storage is configured with.
#[derive(Debug, Clone, Copy, PartialEq, Eq, Structural)]
pub enum VectorStorageDatatype {
    Float32,
    Uint8,
    Float16,
    Turbo4,
}

/// Element width used for one vector's on-disk representation.
#[derive(Debug, Clone, Copy, PartialEq, Eq, Structural)]
pub enum DenseEncoding {
    /// 2 bytes per element. Chosen when the collection declares `datatype: float16`.
    F16,
    /// 4 bytes per element. The default, and what a `float32` or unset datatype gets.
    F32,
}

/// A dense vector as packed bytes.
#[derive(Debug, PartialEq, Eq)]
pub struct DenseBytes(pub Vec<u8>);

/// A byte string that is not a whole number of elements.
#[derive(Debug, Clone, Copy, PartialEq, Eq, Structural)]
pub struct RaggedVector {
    pub bytes: usize,
    pub width: usize,
}

impl RaggedVector {
    pub open spec fn text(self) -> Seq<char> {
        "dense vector is "@ + text::decimal_text(self.bytes as nat)
            + " bytes, not a multiple of the "@ + text::decimal_text(self.width as nat)
            + "-byte element width; the part file may have been written under a different encoding"@
    }

    /// The message for the operator.
    pub fn message(&self) -> (message: String)
        ensures
            message@ == self.text(),
    {
        let mut message = "dense vector is ".to_owned();
        message.append(text::decimal(self.bytes as u128).as_str());
        message.append(" bytes, not a multiple of the ");
        message.append(text::decimal(self.width as u128).as_str());
        message.append(
            "-byte element width; the part file may have been written under a different encoding",
        );
        message
    }
}

/// The packed form of elements: each at `width` bytes, one after another.
pub open spec fn packed(elements: Seq<u32>, width: nat) -> Seq<u8>
    decreases elements.len(),
{
    if elements.len() == 0 {
        Seq::empty()
    } else {
        packed(elements.drop_last(), width) + bytes::le_bytes(elements.last() as nat, width)
    }
}

/// The elements of a packed vector, `width` bytes each.
pub open spec fn unpacked(bytes: Seq<u8>, width: nat) -> Seq<u32> {
    Seq::new(
        bytes.len() / width,
        |i: int| bytes::le_value(bytes.subrange(i * width, i * width + width)) as u32,
    )
}

/// The encoding for a configured datatype: half precision where it says so, and full width
/// otherwise.
pub open spec fn encoding_for(datatype: Option<VectorStorageDatatype>) -> DenseEncoding {
    if datatype == Some(VectorStorageDatatype::Float16) {
        DenseEncoding::F16
    } else {
        DenseEncoding::F32
    }
}

/// The encodings of named vectors.
pub open spec fn encodings_of(vectors: Seq<(Seq<char>, VectorParams)>) -> Seq<
    (Seq<char>, DenseEncoding),
> {
    Seq::new(vectors.len(), |i: int| (vectors[i].0, encoding_for(vectors[i].1.datatype)))
}

impl DenseEncoding {
    /// The number of bytes one element takes.
    pub open spec fn width(self) -> nat {
        match self {
            DenseEncoding::F16 => 2,
            DenseEncoding::F32 => 4,
        }
    }

    /// Whether every element fits the width of this encoding.
    pub open spec fn holds(self, elements: Seq<u32>) -> bool {
        forall|i: int|
            0 <= i < elements.len() ==> (#[trigger] elements[i]) < bytes::le_limit(self.width())
    }

    /// Pick an encoding from a vector's configured datatype.
    ///
    /// Anything that is not explicitly `float16` gets f32. In particular `uint8` and `turbo4`
    /// are quantization targets applied inside the segment, not a description of the values
    /// arriving from the source, so narrowing the intermediate for them would lose data.
    pub fn for_datatype(datatype: Option<VectorStorageDatatype>) -> (encoding: Self)
        ensures
            encoding == encoding_for(datatype),
    {
        match datatype {
            Some(VectorStorageDatatype::Float16) => DenseEncoding::F16,
            _ => DenseEncoding::F32,
        }
    }

    /// The number of bytes one element takes.
    pub fn bytes_per_element(self) -> (width: usize)
        ensures
            width == self.width(),
    {
        match self {
            DenseEncoding::F16 => 2,
            DenseEncoding::F32 => 4,
        }
    }

    /// Whether `elements` are what is stored of `values`: the values themselves, or each one
    /// narrowed.
    pub open spec fn stores<F: Fn(u32) -> u16>(
        self,
        values: Seq<u32>,
        narrow: F,
        elements: Seq<u32>,
    ) -> bool {
        match self {
            DenseEncoding::F16 => {
                &&& elements.len() == values.len()
                &&& forall|i: int|
                    0 <= i < values.len() ==> (#[trigger] elements[i]) < 0x1_0000
                        && narrow.ensures((values[i],), elements[i] as u16)
            },
            DenseEncoding::F32 => elements == values,
        }
    }

    /// Whether `values` are what the stored `elements` stand for: the elements themselves, or each
    /// one widened.
    pub open spec fn loads<F: Fn(u16) -> u32>(
        self,
        elements: Seq<u32>,
        widen: F,
        values: Seq<u32>,
    ) -> bool {
        match self {
            DenseEncoding::F16 => {
                &&& values.len() == elements.len()
                &&& forall|i: int|
                    0 <= i < elements.len() ==> widen.ensures(
                        (elements[i] as u16,),
                        #[trigger] values[i],
                    )
            },
            DenseEncoding::F32 => values == elements,
        }
    }

    /// Pack single-precision values, given by their bit patterns, into little-endian bytes at this
    /// width. `narrow` gives the half-precision pattern of a value.
    pub fn encode<F: Fn(u32) -> u16>(self, values: &[u32], narrow: F) -> (bytes: DenseBytes)
        requires
            forall|value: u32| #[trigger] narrow.requires((value,)),
        ensures
            exists|elements: Seq<u32>| #[trigger]
                self.stores(values@, narrow, elements) && bytes.0@ == packed(
                    elements,
                    self.width(),
                ),
    {
        let width: usize = self.bytes_per_element();
        let mut out: Vec<u8> = Vec::new();
        let mut i: usize = 0;
        let ghost mut elements: Seq<u32> = Seq::empty();
        while i < values.len()
            invariant
                i <= values.len(),
                width == self.width(),
                elements.len() == i,
                forall|value: u32| #[trigger] narrow.requires((value,)),
                forall|k: int|
                    0 <= k < i ==> (match self {
                        DenseEncoding::F16 => (#[trigger] elements[k]) < 0x1_0000
                            && narrow.ensures((values@[k],), elements[k] as u16),
                        DenseEncoding::F32 => elements[k] == values@[k],
                    }),
                out@ == packed(elements, self.width()),
            decreases values.len() - i,
        {
            let element: u32 = match self {
                DenseEncoding::F16 => narrow(values[i]) as u32,
                DenseEncoding::F32 => values[i],
            };
            proof {
                let longer = elements.push(element);
                assert(longer.drop_last() =~= elements);
                elements = longer;
            }
            bytes::push_le(&mut out, element, width);
            i = i + 1;
        }
        assert(self == DenseEncoding::F32 ==> elements =~= values@);
        assert(self.stores(values@, narrow, elements));
        DenseBytes(out)
    }

    /// Unpack bytes back into single-precision values, given by their bit patterns. `widen` gives
    /// the single-precision pattern of a half-precision one.
    pub fn decode<F: Fn(u16) -> u32>(self, bytes: &DenseBytes, widen: F) -> (values: Result<
        Vec<u32>,
        RaggedVector,
    >)
        requires
            forall|half: u16| #[trigger] widen.requires((half,)),
        ensures
            match values {
                Ok(out) => bytes.0@.len() % self.width() == 0 && self.loads(
                    unpacked(bytes.0@, self.width()),
                    widen,
                    out@,
                ),
                Err(err) => bytes.0@.len() % self.width() != 0 && err.bytes == bytes.0@.len()
                    && err.width == self.width(),
            },
    {
        let width: usize = self.bytes_per_element();
        if bytes.0.len() % width != 0 {
            return Err(RaggedVector { bytes: bytes.0.len(), width });
        }
        let count: usize = bytes.0.len() / width;
        assert(count * width == bytes.0@.len()) by (nonlinear_arith)
            requires
                width == 2 || width == 4,
                count == bytes.0@.len() / (width as nat),
                bytes.0@.len() % (width as nat) == 0,
        ;
        let ghost elements = unpacked(bytes.0@, self.width());
        let mut out: Vec<u32> = Vec::new();
        let mut i: usize = 0;
        while i < count
            invariant
                i <= count,
                width == self.width(),
                width == 2 || width == 4,
                count * width == bytes.0.len(),
                elements == unpacked(bytes.0@, self.width()),
                elements.len() == count,
                out.len() == i,
                forall|half: u16| #[trigger] widen.requires((half,)),
                forall|k: int|
                    0 <= k < i ==> (match self {
                        DenseEncoding::F16 => widen.ensures(
                            (elements[k] as u16,),
                            #[trigger] out@[k],
                        ),
                        DenseEncoding::F32 => out@[k] == elements[k],
                    }),
            decreases count - i,
        {
            assert(i * width + width <= count * width) by (nonlinear_arith)
                requires
                    i < count,
            ;
            let element: u32 = bytes::read_le(bytes.0.as_slice(), i * width, width);
            proof {
                bytes::lemma_le_limits();
                bytes::lemma_le_round_trip(0, bytes.0@.subrange(i * width, i * width + width));
            }
            assert(element == elements[i as int]);
            let value: u32 = match self {
                DenseEncoding::F16 => widen(element as u16),
                DenseEncoding::F32 => element,
            };
            out.push(value);
            i = i + 1;
        }
        assert(self == DenseEncoding::F32 ==> out@ =~= elements);
        Ok(out)
    }
}

/// The size of packed elements.
pub proof fn lemma_packed_len(elements: Seq<u32>, width: nat)
    ensures
        packed(elements, width).len() == elements.len() * width,
    decreases elements.len(),
{
    if elements.len() > 0 {
        lemma_packed_len(elements.drop_last(), width);
        bytes::lemma_le_round_trip(
            elements.last() as nat,
            Seq::new(width, |i: int| 0u8),
        );
        assert(elements.len() * width == (elements.len() - 1) * width + width) by (nonlinear_arith);
    } else {
        assert(0 * width == 0) by (nonlinear_arith);
    }
}

/// Element `i` of packed elements stands in the bytes from `i * width`.
proof fn lemma_packed_at(elements: Seq<u32>, width: nat, i: int)
    requires
        0 <= i < elements.len(),
    ensures
        0 <= i * width <= i * width + width <= packed(elements, width).len(),
        packed(elements, width).subrange(i * width, i * width + width) == bytes::le_bytes(
            elements[i] as nat,
            width,
        ),
    decreases elements.len(),
{
    let front = packed(elements.drop_last(), width);
    let back = bytes::le_bytes(elements.last() as nat, width);
    lemma_packed_len(elements.drop_last(), width);
    bytes::lemma_le_round_trip(elements.last() as nat, Seq::new(width, |i: int| 0u8));
    assert(i * width >= 0) by (nonlinear_arith)
        requires
            i >= 0,
    ;
    if i == elements.len() - 1 {
        assert(front.len() == i * width);
        assert((front + back).subrange(i * width, i * width + width) =~= back);
    } else {
        lemma_packed_at(elements.drop_last(), width, i);
        assert((front + back).subrange(i * width, i * width + width) =~= front.subrange(
            i * width,
            i * width + width,
        ));
    }
}

/// A vector that is packed and unpacked under one encoding comes back element by element.
pub proof fn dense_round_trip(encoding: DenseEncoding, elements: Seq<u32>)
    requires
        encoding.holds(elements),
    ensures
        packed(elements, encoding.width()).len() % encoding.width() == 0,
        unpacked(packed(elements, encoding.width()), encoding.width()) == elements,
{
    let width = encoding.width();
    let stored = packed(elements, width);
    lemma_packed_len(elements, width);
    assert((elements.len() * width) % width == 0 && (elements.len() * width) / width
        == elements.len()) by (nonlinear_arith)
        requires
            width > 0,
    ;
    assert forall|i: int| 0 <= i < elements.len() implies unpacked(stored, width)[i]
        == elements[i] by {
        lemma_packed_at(elements, width, i);
        let one = stored.subrange(i * width, i * width + width);
        bytes::lemma_le_round_trip(elements[i] as nat, one);
    }
    assert(unpacked(stored, width) =~= elements);
}

/// A vector that is encoded and decoded under one encoding comes back exactly, provided that
/// widening undoes narrowing on its values. Under single precision nothing is asked of them.
pub proof fn encoding_round_trip<N: Fn(u32) -> u16, W: Fn(u16) -> u32>(
    encoding: DenseEncoding,
    values: Seq<u32>,
    narrow: N,
    widen: W,
    elements: Seq<u32>,
    back: Seq<u32>,
)
    requires
        encoding == DenseEncoding::F16 ==> forall|i: int, half: u16, wide: u32|
            0 <= i < values.len() && #[trigger] narrow.ensures((values[i],), half)
                && #[trigger] widen.ensures((half,), wide) ==> wide == values[i],
        encoding.stores(values, narrow, elements),
        encoding.loads(
            unpacked(packed(elements, encoding.width()), encoding.width()),
            widen,
            back,
        ),
    ensures
        back == values,
{
    bytes::lemma_le_limits();
    dense_round_trip(encoding, elements);
    assert(back =~= values);
}

/// The encoding of each dense vector of a collection.
pub fn encodings_for(config: &LoadedConfig) -> (encodings: NameMap<DenseEncoding>)
    ensures
        encodings@ == encodings_of(config.config.vectors@),
{
    let vectors = &config.config.vectors;
    let mut encodings: NameMap<DenseEncoding> = NameMap::new();
    let n: usize = vectors.len();
    let mut i: usize = 0;
    while i < n
        invariant
            i <= n,
            n == vectors@.len(),
            names::sorted_keys(vectors@),
            encodings@ == encodings_of(vectors@).take(i as int),
        decreases n - i,
    {
        encodings.append(
            vectors.name_at(i).clone(),
            DenseEncoding::for_datatype(vectors.value_at(i).datatype),
        );
        assert(encodings@ =~= encodings_of(vectors@).take(i + 1));
        i = i + 1;
    }
    assert(encodings_of(vectors@).take(n as int) =~= encodings_of(vectors@));
    encodings
}

/// A dense vector is stored at two bytes an element where the collection declares half precision,
/// and at four otherwise, each element lowest byte first, in order.
pub proof fn elements_are_stored_at_the_declared_width(
    datatype: Option<VectorStorageDatatype>,
    elements: Seq<u32>,
    i: int,
)
    requires
        0 <= i < elements.len(),
    ensures
        ({
            let stored = packed(elements, encoding_for(datatype).width());
            let e = elements[i] as nat;
            &&& datatype == Some(VectorStorageDatatype::Float16) ==> stored.len() == 2
                * elements.len() && stored[2 * i] == (e % 256) as u8 && stored[2 * i + 1] == (e
                / 256 % 256) as u8
            &&& datatype != Some(VectorStorageDatatype::Float16) ==> stored.len() == 4
                * elements.len() && stored[4 * i] == (e % 256) as u8 && stored[4 * i + 1] == (e
                / 256 % 256) as u8 && stored[4 * i + 2] == (e / 65536 % 256) as u8 && stored[4 * i
                + 3] == (e / 16777216 % 256) as u8
        }),
{
    let width = encoding_for(datatype).width();
    let stored = packed(elements, width);
    lemma_packed_len(elements, width);
    lemma_packed_at(elements, width, i);
    bytes::numbers_are_stored_lowest_byte_first(elements[i] as nat);
    let one = stored.subrange(i * width, i * width + width);
    assert(one[0] == stored[i * width]);
    assert(one[1] == stored[i * width + 1]);
    if width == 4 {
        assert(one[2] == stored[i * width + 2]);
        assert(one[3] == stored[i * width + 3]);
    }
}

/// Every dense vector of a collection has an encoding under its name: half precision exactly where
/// the vector declares it.
pub proof fn half_precision_is_only_where_it_is_declared(
    vectors: Seq<(Seq<char>, VectorParams)>,
    i: int,
)
    requires
        0 <= i < vectors.len(),
    ensures
        encodings_of(vectors).len() == vectors.len(),
        encodings_of(vectors)[i].0 == vectors[i].0,
        encodings_of(vectors)[i].1 == DenseEncoding::F16 <==> vectors[i].1.datatype == Some(
            VectorStorageDatatype::Float16,
        ),
{
}

} // verus!
