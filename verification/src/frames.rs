//! The byte layout of a part file: magic, header, then length-prefixed records.
//!
//! The reader and the writer here decide; the caller moves the bytes. A writer hands back the bytes
//! to put into the file. A reader says how many bytes it wants next, is fed what the file had, and
//! reports what those bytes make up.
use vstd::prelude::*;
use vstd::string::*;
use crate::bytes;
use crate::partfile::PartHeader;
use crate::text;

verus! {

/// Largest record that is read or written. Guards against a corrupt length prefix causing a huge
/// allocation; a single point far larger than this is a mistake, not a legitimate input.
pub const MAX_RECORD_BYTES: u32 = 268_435_456;

/// The container version, the last byte of the magic number.
pub const FORMAT_VERSION: u8 = 4;

/// The bytes that every part file starts with, whatever its version.
pub open spec fn magic_prefix() -> Seq<u8> {
    seq![81u8, 83u8, 66u8, 80u8, 65u8, 82u8, 84u8]
}

/// The bytes that a part file of this version starts with.
pub open spec fn magic_bytes() -> Seq<u8> {
    magic_prefix().push(FORMAT_VERSION)
}

/// The head of a part file: magic, the length of the header, the header.
pub open spec fn preamble(header: Seq<u8>) -> Seq<u8> {
    magic_bytes() + bytes::le_bytes(header.len(), 4) + header
}

/// One record in a part file: its length, then its bytes.
pub open spec fn frame(record: Seq<u8>) -> Seq<u8> {
    bytes::le_bytes(record.len(), 4) + record
}

/// Records one after another.
pub open spec fn frames(records: Seq<Seq<u8>>) -> Seq<u8>
    decreases records.len(),
{
    if records.len() == 0 {
        Seq::empty()
    } else {
        frame(records[0]) + frames(records.skip(1))
    }
}

/// What a writer refuses.
#[derive(Debug, Clone, Copy, PartialEq, Eq, Structural)]
pub enum WriteFault {
    /// The header's length does not fit its field.
    HeaderTooLarge,
    /// The record's length does not fit its field.
    PointTooLarge,
    /// The record is over the limit that readers hold to.
    OverLimit(u32),
}

impl WriteFault {
    pub open spec fn text(self) -> Seq<char> {
        match self {
            WriteFault::HeaderTooLarge => "part header is implausibly large"@,
            WriteFault::PointTooLarge => "point is implausibly large"@,
            WriteFault::OverLimit(len) => "point serializes to "@ + text::decimal_text(len as nat)
                + " bytes, above the "@ + text::decimal_text(MAX_RECORD_BYTES as nat)
                + " limit"@,
        }
    }

    /// The message for the operator.
    pub fn message(&self) -> (message: String)
        ensures
            message@ == self.text(),
    {
        match *self {
            WriteFault::HeaderTooLarge => "part header is implausibly large".to_owned(),
            WriteFault::PointTooLarge => "point is implausibly large".to_owned(),
            WriteFault::OverLimit(len) => {
                let mut message = "point serializes to ".to_owned();
                message.append(text::decimal(len as u128).as_str());
                message.append(" bytes, above the ");
                message.append(text::decimal(MAX_RECORD_BYTES as u128).as_str());
                message.append(" limit");
                message
            },
        }
    }
}

/// Sidecar recorded next to each committed part, so that planning needs no pass over the records.
#[derive(Debug, Clone, Copy, PartialEq, Eq, Structural)]
pub struct PartMeta {
    pub records: u64,
    pub bytes: u64,
}

/// Lays out a part file and counts its records.
pub struct PartWriter {
    pub records: u64,
}

/// The magic number.
fn magic() -> (magic: Vec<u8>)
    ensures
        magic@ == magic_bytes(),
{
    let magic = vec![81u8, 83u8, 66u8, 80u8, 65u8, 82u8, 84u8, FORMAT_VERSION];
    assert(magic@ =~= magic_bytes());
    magic
}

fn append_all(out: &mut Vec<u8>, more: &[u8])
    ensures
        final(out)@ == old(out)@ + more@,
{
    let mut i: usize = 0;
    assert(out@ =~= old(out)@ + more@.take(0));
    while i < more.len()
        invariant
            i <= more.len(),
            out@ == old(out)@ + more@.take(i as int),
        decreases more.len() - i,
    {
        out.push(more[i]);
        assert(out@ =~= old(out)@ + more@.take(i + 1));
        i = i + 1;
    }
    assert(more@.take(more@.len() as int) =~= more@);
}

impl PartWriter {
    /// Start a part file: the writer, and the bytes at its head.
    pub fn create(header: &[u8]) -> (started: Result<(PartWriter, Vec<u8>), WriteFault>)
        ensures
            match started {
                Ok((writer, head)) => header@.len() <= u32::MAX && writer.records == 0 && head@
                    == preamble(header@),
                Err(fault) => header@.len() > u32::MAX && fault == WriteFault::HeaderTooLarge,
            },
    {
        if header.len() > u32::MAX as usize {
            return Err(WriteFault::HeaderTooLarge);
        }
        let mut head = magic();
        bytes::push_le(&mut head, header.len() as u32, 4);
        append_all(&mut head, header);
        Ok((PartWriter { records: 0 }, head))
    }

    /// Add one record: the bytes to put at the end of the file.
    pub fn append(&mut self, record: &[u8]) -> (framed: Result<Vec<u8>, WriteFault>)
        requires
            old(self).records < u64::MAX,
        ensures
            match framed {
                Ok(more) => record@.len() <= MAX_RECORD_BYTES && more@ == frame(record@)
                    && final(self).records == old(self).records + 1,
                Err(fault) => record@.len() > MAX_RECORD_BYTES && fault == (if record@.len()
                    > u32::MAX {
                    WriteFault::PointTooLarge
                } else {
                    WriteFault::OverLimit(record@.len() as u32)
                }) && final(self).records == old(self).records,
            },
    {
        if record.len() > u32::MAX as usize {
            return Err(WriteFault::PointTooLarge);
        }
        let len: u32 = record.len() as u32;
        if len > MAX_RECORD_BYTES {
            return Err(WriteFault::OverLimit(len));
        }
        let mut more: Vec<u8> = Vec::new();
        bytes::push_le(&mut more, len, 4);
        append_all(&mut more, record);
        assert(more@ =~= frame(record@));
        self.records = self.records + 1;
        Ok(more)
    }

    /// Finish a part file of that many bytes: what its sidecar records.
    pub fn commit(self, bytes: u64) -> (meta: PartMeta)
        ensures
            meta == (PartMeta { records: self.records, bytes }),
    {
        PartMeta { records: self.records, bytes }
    }
}

/// Where in a part file a reader stands.
#[derive(Debug, Clone, Copy, PartialEq, Eq, Structural)]
pub enum ReadState {
    /// At the start.
    Magic,
    /// Behind the magic number.
    HeaderLength,
    /// At a header of that length.
    Header(u32),
    /// Behind the header, which is still to be checked.
    HeaderCheck,
    /// Between two records.
    Boundary,
    /// Behind the first byte of a record's length.
    Length(u8),
    /// At a record of that length.
    Record(u32),
    /// At a fault.
    Stopped,
}

/// What is wrong with the bytes of a part file.
#[derive(Debug, Clone, Copy, PartialEq, Eq, Structural)]
pub enum ReadFault {
    /// The file ends within the magic number.
    TooShort,
    /// A part file of another format version.
    OtherVersion(u8),
    /// Not a part file.
    BadMagic,
    /// The file ends within the header or its length.
    TruncatedHeader,
    /// The header's length is implausible.
    HeaderTooLong(u32),
    /// The file ends within a record's length.
    TruncatedLength,
    /// A record's length is over the limit.
    RecordTooLong(u32),
    /// The file ends within a record of that length.
    TruncatedRecord(u32),
}

impl ReadFault {
    pub open spec fn text(self, path: Seq<char>) -> Seq<char> {
        match self {
            ReadFault::TooShort => path
                + " is too short to be a part file"@,
            ReadFault::OtherVersion(version) => path
                + " is a part file in format version "@
                + text::decimal_text(version as nat)
                + ", but this build reads version "@
                + text::decimal_text(FORMAT_VERSION as nat)
                + ".\n\nVersion \\x03 narrowed the header fingerprint so that tuning \
                 `hnsw_config`, `quantization_config` or `max_segment_size` no longer \
                 invalidates a scatter. Older parts record the full config surface in \
                 the same field, so they cannot be compared against the new one. \
                 Re-run the scatter phase into a clean work directory; from then on \
                 those fields are frozen at `plan` time instead."@,
            ReadFault::BadMagic => path
                + " is not a part file (bad magic); expected \"QSBPART\\u{4}\""@,
            ReadFault::TruncatedHeader => "failed to fill whole buffer"@,
            ReadFault::HeaderTooLong(len) => path
                + ": header length "@
                + text::decimal_text(len as nat)
                + " is implausible"@,
            ReadFault::TruncatedLength => path
                + ": truncated record-length prefix (got 1 of 4 bytes); file is corrupt"@,
            ReadFault::RecordTooLong(len) => path
                + ": record length "@
                + text::decimal_text(len as nat)
                + " exceeds the "@
                + text::decimal_text(MAX_RECORD_BYTES as nat)
                + " limit; file is corrupt"@,
            ReadFault::TruncatedRecord(len) => path
                + ": record truncated (expected "@
                + text::decimal_text(len as nat)
                + " bytes)"@,
        }
    }

    /// The message for the operator, about the file at `path`.
    pub fn message(&self, path: &str) -> (message: String)
        ensures
            message@ == self.text(path@),
    {
        match *self {
            ReadFault::TooShort => {
                let mut message = path.to_owned();
                message.append(" is too short to be a part file");
                message
            },
            ReadFault::OtherVersion(version) => {
                let mut message = path.to_owned();
                message.append(" is a part file in format version ");
                message.append(text::decimal(version as u128).as_str());
                message.append(", but this build reads version ");
                message.append(text::decimal(FORMAT_VERSION as u128).as_str());
                message.append(
                    ".\n\nVersion \\x03 narrowed the header fingerprint so that \
                     tuning `hnsw_config`, `quantization_config` or \
                     `max_segment_size` no longer invalidates a scatter. Older parts \
                     record the full config surface in the same field, so they cannot \
                     be compared against the new one. Re-run the scatter phase into a \
                     clean work directory; from then on those fields are frozen at \
                     `plan` time instead.",
                );
                message
            },
            ReadFault::BadMagic => {
                let mut message = path.to_owned();
                message.append(" is not a part file (bad magic); expected \"QSBPART\\u{4}\"");
                message
            },
            ReadFault::TruncatedHeader => "failed to fill whole buffer".to_owned(),
            ReadFault::HeaderTooLong(len) => {
                let mut message = path.to_owned();
                message.append(": header length ");
                message.append(text::decimal(len as u128).as_str());
                message.append(" is implausible");
                message
            },
            ReadFault::TruncatedLength => {
                let mut message = path.to_owned();
                message.append(
                    ": truncated record-length prefix (got 1 of 4 bytes); file is \
                     corrupt",
                );
                message
            },
            ReadFault::RecordTooLong(len) => {
                let mut message = path.to_owned();
                message.append(": record length ");
                message.append(text::decimal(len as u128).as_str());
                message.append(" exceeds the ");
                message.append(text::decimal(MAX_RECORD_BYTES as u128).as_str());
                message.append(" limit; file is corrupt");
                message
            },
            ReadFault::TruncatedRecord(len) => {
                let mut message = path.to_owned();
                message.append(": record truncated (expected ");
                message.append(text::decimal(len as u128).as_str());
                message.append(" bytes)");
                message
            },
        }
    }
}

/// What the bytes that a reader was fed make up.
pub enum ReadEvent {
    /// Nothing complete yet.
    More,
    /// The header.
    Header(Vec<u8>),
    /// A record.
    Record(Vec<u8>),
    /// The end of the file, between two records.
    End,
    /// A fault.
    Fault(ReadFault),
}

/// What a read event holds.
pub enum EventView {
    More,
    Header(Seq<u8>),
    Record(Seq<u8>),
    End,
    Fault(ReadFault),
}

impl ReadEvent {
    pub open spec fn view(self) -> EventView {
        match self {
            ReadEvent::More => EventView::More,
            ReadEvent::Header(bytes) => EventView::Header(bytes@),
            ReadEvent::Record(bytes) => EventView::Record(bytes@),
            ReadEvent::End => EventView::End,
            ReadEvent::Fault(fault) => EventView::Fault(fault),
        }
    }
}

impl ReadState {
    /// How many bytes are wanted next.
    pub open spec fn wanted(self) -> nat {
        match self {
            ReadState::Magic => 8,
            ReadState::HeaderLength => 4,
            ReadState::Header(len) => len as nat,
            ReadState::HeaderCheck => 0,
            ReadState::Boundary => 1,
            ReadState::Length(_) => 3,
            ReadState::Record(len) => len as nat,
            ReadState::Stopped => 0,
        }
    }

    /// Whether the reader goes on with bytes of the file.
    pub open spec fn reading(self) -> bool {
        self != ReadState::HeaderCheck && self != ReadState::Stopped
    }

    /// Where the reader stands once it was fed `got`, and what it reports. Fewer bytes than wanted
    /// mean that the file ended.
    pub open spec fn step(self, got: Seq<u8>) -> (ReadState, EventView) {
        match self {
            ReadState::Magic => if got.len() < 8 {
                (ReadState::Stopped, EventView::Fault(ReadFault::TooShort))
            } else if got == magic_bytes() {
                (ReadState::HeaderLength, EventView::More)
            } else if got.take(7) == magic_prefix() {
                (ReadState::Stopped, EventView::Fault(ReadFault::OtherVersion(got[7])))
            } else {
                (ReadState::Stopped, EventView::Fault(ReadFault::BadMagic))
            },
            ReadState::HeaderLength => {
                let len = bytes::le_value(got) as u32;
                if got.len() < 4 {
                    (ReadState::Stopped, EventView::Fault(ReadFault::TruncatedHeader))
                } else if len > MAX_RECORD_BYTES {
                    (ReadState::Stopped, EventView::Fault(ReadFault::HeaderTooLong(len)))
                } else {
                    (ReadState::Header(len), EventView::More)
                }
            },
            ReadState::Header(len) => if got.len() < len {
                (ReadState::Stopped, EventView::Fault(ReadFault::TruncatedHeader))
            } else {
                (ReadState::HeaderCheck, EventView::Header(got))
            },
            ReadState::Boundary => if got.len() == 0 {
                (ReadState::Boundary, EventView::End)
            } else {
                (ReadState::Length(got[0]), EventView::More)
            },
            ReadState::Length(first) => {
                let len = bytes::le_value(seq![first] + got) as u32;
                if got.len() < 3 {
                    (ReadState::Stopped, EventView::Fault(ReadFault::TruncatedLength))
                } else if len > MAX_RECORD_BYTES {
                    (ReadState::Stopped, EventView::Fault(ReadFault::RecordTooLong(len)))
                } else {
                    (ReadState::Record(len), EventView::More)
                }
            },
            ReadState::Record(len) => if got.len() < len {
                (ReadState::Stopped, EventView::Fault(ReadFault::TruncatedRecord(len)))
            } else {
                (ReadState::Boundary, EventView::Record(got))
            },
            _ => (self, EventView::More),
        }
    }
}

/// A part whose routing is not the one that the build expects.
#[derive(Debug)]
pub struct FingerprintMismatch {
    pub part: String,
    pub expected: String,
}

impl FingerprintMismatch {
    pub open spec fn text(self, path: Seq<char>) -> Seq<char> {
        path
            + " was scattered under an incompatible collection config\n  part \
             fingerprint:     "@
            + self.part@
            + "\n  expected fingerprint: "@
            + self.expected@
            + "\n\nThis fingerprint covers only what a part's contents depend on: \
             `shard_number`, `sharding_method`, and each dense vector's `size` and \
             `datatype`. One of those changed, so records in this file may belong to \
             a different shard or decode as garbage. Re-run the scatter phase into a \
             clean work directory.\n\nNote that `hnsw_config`, `quantization_config` \
             and `max_segment_size` are *not* part of this check — changing them \
             needs only a re-run of `plan`, not a scatter."@
    }

    /// The message for the operator, about the file at `path`.
    pub fn message(&self, path: &str) -> (message: String)
        ensures
            message@ == self.text(path@),
    {
        let mut message = path.to_owned();
        message.append(
            " was scattered under an incompatible collection config\n  part \
             fingerprint:     ",
        );
        message.append(self.part.as_str());
        message.append("\n  expected fingerprint: ");
        message.append(self.expected.as_str());
        message.append(
            "\n\nThis fingerprint covers only what a part's contents depend on: \
             `shard_number`, `sharding_method`, and each dense vector's `size` and \
             `datatype`. One of those changed, so records in this file may belong to \
             a different shard or decode as garbage. Re-run the scatter phase into a \
             clean work directory.\n\nNote that `hnsw_config`, `quantization_config` \
             and `max_segment_size` are *not* part of this check — changing them \
             needs only a re-run of `plan`, not a scatter.",
        );
        message
    }
}

/// Reads a part file, verifying its header first.
pub struct PartReader {
    pub state: ReadState,
    pub expected_fingerprint: String,
}

impl PartReader {
    /// A reader at the start of a file, which must have been written under
    /// `expected_fingerprint`.
    pub fn open(expected_fingerprint: &str) -> (reader: PartReader)
        ensures
            reader.state == ReadState::Magic,
            reader.expected_fingerprint@ == expected_fingerprint@,
    {
        PartReader {
            state: ReadState::Magic,
            expected_fingerprint: expected_fingerprint.to_owned(),
        }
    }

    /// How many bytes are wanted next, or `None` when no bytes are.
    pub fn wanted(&self) -> (wanted: Option<usize>)
        ensures
            match wanted {
                Some(n) => self.state.reading() && n == self.state.wanted(),
                None => !self.state.reading(),
            },
    {
        match self.state {
            ReadState::Magic => Some(8),
            ReadState::HeaderLength => Some(4),
            ReadState::Header(len) => Some(len as usize),
            ReadState::HeaderCheck => None,
            ReadState::Boundary => Some(1),
            ReadState::Length(_) => Some(3),
            ReadState::Record(len) => Some(len as usize),
            ReadState::Stopped => None,
        }
    }

    /// Take up to the wanted number of bytes; fewer mean that the file ended.
    pub fn feed(&mut self, got: Vec<u8>) -> (event: ReadEvent)
        requires
            old(self).state.reading(),
            got@.len() <= old(self).state.wanted(),
        ensures
            (final(self).state, event@) == old(self).state.step(got@),
            final(self).expected_fingerprint == old(self).expected_fingerprint,
    {
        match self.state {
            ReadState::Magic => self.feed_magic(&got),
            ReadState::HeaderLength => {
                if got.len() < 4 {
                    self.state = ReadState::Stopped;
                    return ReadEvent::Fault(ReadFault::TruncatedHeader);
                }
                let len: u32 = bytes::read_le(got.as_slice(), 0, 4);
                assert(got@.subrange(0, 4) =~= got@);
                if len > MAX_RECORD_BYTES {
                    self.state = ReadState::Stopped;
                    return ReadEvent::Fault(ReadFault::HeaderTooLong(len));
                }
                self.state = ReadState::Header(len);
                ReadEvent::More
            },
            ReadState::Header(len) => {
                if got.len() < len as usize {
                    self.state = ReadState::Stopped;
                    return ReadEvent::Fault(ReadFault::TruncatedHeader);
                }
                self.state = ReadState::HeaderCheck;
                ReadEvent::Header(got)
            },
            ReadState::Boundary => {
                if got.len() == 0 {
                    return ReadEvent::End;
                }
                self.state = ReadState::Length(got[0]);
                ReadEvent::More
            },
            ReadState::Length(first) => {
                if got.len() < 3 {
                    self.state = ReadState::Stopped;
                    return ReadEvent::Fault(ReadFault::TruncatedLength);
                }
                let whole = vec![first, got[0], got[1], got[2]];
                let len: u32 = bytes::read_le(whole.as_slice(), 0, 4);
                assert(whole@.subrange(0, 4) =~= seq![first] + got@);
                if len > MAX_RECORD_BYTES {
                    self.state = ReadState::Stopped;
                    return ReadEvent::Fault(ReadFault::RecordTooLong(len));
                }
                self.state = ReadState::Record(len);
                ReadEvent::More
            },
            ReadState::Record(len) => {
                if got.len() < len as usize {
                    self.state = ReadState::Stopped;
                    return ReadEvent::Fault(ReadFault::TruncatedRecord(len));
                }
                self.state = ReadState::Boundary;
                ReadEvent::Record(got)
            },
            _ => ReadEvent::More,
        }
    }

    fn feed_magic(&mut self, got: &Vec<u8>) -> (event: ReadEvent)
        requires
            old(self).state == ReadState::Magic,
            got@.len() <= 8,
        ensures
            (final(self).state, event@) == ReadState::Magic.step(got@),
            final(self).expected_fingerprint == old(self).expected_fingerprint,
    {
        if got.len() < 8 {
            self.state = ReadState::Stopped;
            return ReadEvent::Fault(ReadFault::TooShort);
        }
        let expected = magic();
        let mut i: usize = 0;
        while i < 7 && got[i] == expected[i]
            invariant
                i <= 7,
                got@.len() == 8,
                expected@ == magic_bytes(),
                got@.take(i as int) == magic_bytes().take(i as int),
            decreases 7 - i,
        {
            assert(got@.take(i + 1) =~= got@.take(i as int).push(got@[i as int]));
            assert(magic_bytes().take(i + 1) =~= magic_bytes().take(i as int).push(
                magic_bytes()[i as int],
            ));
            i = i + 1;
        }
        assert(magic_bytes().take(7) =~= magic_prefix());
        if i < 7 {
            self.state = ReadState::Stopped;
            assert(got@.take(7)[i as int] == got@[i as int]);
            assert(magic_prefix()[i as int] == magic_bytes()[i as int]);
            return ReadEvent::Fault(ReadFault::BadMagic);
        }
        if got[7] != expected[7] {
            self.state = ReadState::Stopped;
            return ReadEvent::Fault(ReadFault::OtherVersion(got[7]));
        }
        assert(got@ =~= got@.take(7).push(got@[7]));
        self.state = ReadState::HeaderLength;
        ReadEvent::More
    }

    /// Check the parsed header. Records can be read once it is accepted.
    pub fn accept(&mut self, header: &PartHeader) -> (accepted: Result<(), FingerprintMismatch>)
        requires
            old(self).state == ReadState::HeaderCheck,
        ensures
            final(self).expected_fingerprint == old(self).expected_fingerprint,
            match accepted {
                Ok(()) => header.part_fingerprint@ == old(self).expected_fingerprint@
                    && final(self).state == ReadState::Boundary,
                Err(err) => header.part_fingerprint@ != old(self).expected_fingerprint@ && err.part@
                    == header.part_fingerprint@ && err.expected@ == old(
                    self,
                ).expected_fingerprint@ && final(self).state == ReadState::Stopped,
            },
    {
        if !text::same(header.part_fingerprint.as_str(), self.expected_fingerprint.as_str()) {
            self.state = ReadState::Stopped;
            return Err(
                FingerprintMismatch {
                    part: header.part_fingerprint.clone(),
                    expected: self.expected_fingerprint.clone(),
                },
            );
        }
        self.state = ReadState::Boundary;
        Ok(())
    }
}

/// What a file with `rest` still to read gives to a reader in `state`: up to the wanted number of
/// bytes.
pub open spec fn answer(state: ReadState, rest: Seq<u8>) -> Seq<u8> {
    if rest.len() < state.wanted() {
        rest
    } else {
        rest.take(state.wanted() as int)
    }
}

/// The reader's next state, its report, and what is then left of the file.
pub open spec fn advance(state: ReadState, rest: Seq<u8>) -> (ReadState, EventView, Seq<u8>) {
    let got = answer(state, rest);
    let (next, event) = state.step(got);
    (next, event, rest.skip(got.len() as int))
}

/// What a reader between two records reports next, once it has asked as often as it must.
pub open spec fn next_record(rest: Seq<u8>) -> (EventView, Seq<u8>) {
    let (s1, e1, r1) = advance(ReadState::Boundary, rest);
    if e1 != EventView::More {
        (e1, r1)
    } else {
        let (s2, e2, r2) = advance(s1, r1);
        if e2 != EventView::More {
            (e2, r2)
        } else {
            let (s3, e3, r3) = advance(s2, r2);
            (e3, r3)
        }
    }
}

/// Reading moves forward unless the file is at its end.
pub proof fn lemma_record_takes_bytes(rest: Seq<u8>)
    ensures
        next_record(rest).0 is Record ==> next_record(rest).1.len() < rest.len(),
{
}

/// Every record that a reader gets from `rest`, and what ends the reading.
pub open spec fn read_all(rest: Seq<u8>) -> (Seq<Seq<u8>>, EventView)
    decreases rest.len(),
{
    let (event, left) = next_record(rest);
    match event {
        EventView::Record(record) => {
            proof {
                lemma_record_takes_bytes(rest);
            }
            let (more, end) = read_all(left);
            (seq![record] + more, end)
        },
        _ => (Seq::empty(), event),
    }
}

/// One written record is read back, and the reader then stands behind it.
pub proof fn frame_reads_back(record: Seq<u8>, rest: Seq<u8>)
    requires
        record.len() <= MAX_RECORD_BYTES,
    ensures
        next_record(frame(record) + rest) == (EventView::Record(record), rest),
{
    let prefix = bytes::le_bytes(record.len(), 4);
    let input = frame(record) + rest;
    bytes::lemma_le_limits();
    bytes::lemma_le_round_trip(record.len(), seq![0u8, 0u8, 0u8, 0u8]);
    let (s1, e1, r1) = advance(ReadState::Boundary, input);
    assert(answer(ReadState::Boundary, input) =~= seq![prefix[0]]);
    assert(r1 =~= prefix.skip(1) + record + rest);
    let (s2, e2, r2) = advance(s1, r1);
    assert(answer(s1, r1) =~= prefix.skip(1));
    assert(seq![prefix[0]] + prefix.skip(1) =~= prefix);
    assert(r2 =~= record + rest);
    assert(s2 == ReadState::Record(record.len() as u32));
    assert(answer(s2, r2) =~= record);
    assert(r2.skip(record.len() as int) =~= rest);
}

/// The records that were written are the records that are read, in order, and the reading ends
/// cleanly.
pub proof fn records_read_back(records: Seq<Seq<u8>>)
    requires
        forall|i: int| 0 <= i < records.len() ==> (#[trigger] records[i]).len() <= MAX_RECORD_BYTES,
    ensures
        read_all(frames(records)) == (records, EventView::End),
    decreases records.len(),
{
    if records.len() == 0 {
        assert(answer(ReadState::Boundary, frames(records)) =~= Seq::<u8>::empty());
    } else {
        let rest = records.skip(1);
        assert forall|i: int| 0 <= i < rest.len() implies (#[trigger] rest[i]).len()
            <= MAX_RECORD_BYTES by {
            assert(rest[i] == records[i + 1]);
        }
        records_read_back(rest);
        frame_reads_back(records[0], frames(rest));
        assert(seq![records[0]] + rest =~= records);
    }
}

/// A file that was cut short within a record ends in a fault, never in a clean end of file, and
/// the records before the cut are read.
#[verifier::rlimit(40)]
#[verifier::spinoff_prover]
pub proof fn truncation_is_a_fault(records: Seq<Seq<u8>>, last: Seq<u8>, cut: int)
    requires
        forall|i: int| 0 <= i < records.len() ==> (#[trigger] records[i]).len() <= MAX_RECORD_BYTES,
        last.len() <= MAX_RECORD_BYTES,
        0 < cut < frame(last).len(),
    ensures
        read_all(frames(records) + frame(last).take(cut)).0 == records,
        read_all(frames(records) + frame(last).take(cut)).1 == (if cut < 4 {
            EventView::Fault(ReadFault::TruncatedLength)
        } else {
            EventView::Fault(ReadFault::TruncatedRecord(last.len() as u32))
        }),
    decreases records.len(),
{
    let tail = frame(last).take(cut);
    if records.len() == 0 {
        let prefix = bytes::le_bytes(last.len(), 4);
        bytes::lemma_le_limits();
        bytes::lemma_le_round_trip(last.len(), seq![0u8, 0u8, 0u8, 0u8]);
        let input = frames(records) + tail;
        assert(input =~= tail);
        let (s1, e1, r1) = advance(ReadState::Boundary, input);
        assert(answer(ReadState::Boundary, input) =~= seq![prefix[0]]);
        assert(r1.len() == cut - 1);
        if cut >= 4 {
            let (s2, e2, r2) = advance(s1, r1);
            assert(answer(s1, r1) =~= prefix.skip(1));
            assert(seq![prefix[0]] + prefix.skip(1) =~= prefix);
            assert(s2 == ReadState::Record(last.len() as u32));
        }
    } else {
        let rest = records.skip(1);
        assert forall|i: int| 0 <= i < rest.len() implies (#[trigger] rest[i]).len()
            <= MAX_RECORD_BYTES by {
            assert(rest[i] == records[i + 1]);
        }
        truncation_is_a_fault(rest, last, cut);
        frame_reads_back(records[0], frames(rest) + tail);
        assert(frames(records) + tail =~= frame(records[0]) + (frames(rest) + tail));
        assert(seq![records[0]] + rest =~= records);
    }
}

/// The header that was written is the header that is read, and the reader then stands at the
/// records.
pub proof fn header_reads_back(header: Seq<u8>, rest: Seq<u8>)
    requires
        header.len() <= MAX_RECORD_BYTES,
    ensures
        ({
            let (s1, e1, r1) = advance(ReadState::Magic, preamble(header) + rest);
            let (s2, e2, r2) = advance(s1, r1);
            let (s3, e3, r3) = advance(s2, r2);
            &&& e1 == EventView::More
            &&& e2 == EventView::More
            &&& e3 == EventView::Header(header)
            &&& s3 == ReadState::HeaderCheck
            &&& r3 == rest
        }),
{
    let prefix = bytes::le_bytes(header.len(), 4);
    let input = preamble(header) + rest;
    bytes::lemma_le_limits();
    bytes::lemma_le_round_trip(header.len(), seq![0u8, 0u8, 0u8, 0u8]);
    let (s1, e1, r1) = advance(ReadState::Magic, input);
    assert(answer(ReadState::Magic, input) =~= magic_bytes());
    assert(r1 =~= prefix + header + rest);
    let (s2, e2, r2) = advance(s1, r1);
    assert(answer(s1, r1) =~= prefix);
    assert(r2 =~= header + rest);
    assert(answer(s2, r2) =~= header);
    assert(r2.skip(header.len() as int) =~= rest);
}

/// A part file begins with the seven letters `QSBPART` and the version, then the length of its header
/// in four bytes, lowest first, then the header.
pub proof fn a_part_begins_with_its_magic(header: Seq<u8>, i: int)
    requires
        header.len() <= u32::MAX,
        0 <= i < header.len(),
    ensures
        ({
            let head = preamble(header);
            &&& head.len() == 12 + header.len()
            &&& head[0] == 'Q' as u8
            &&& head[1] == 'S' as u8
            &&& head[2] == 'B' as u8
            &&& head[3] == 'P' as u8
            &&& head[4] == 'A' as u8
            &&& head[5] == 'R' as u8
            &&& head[6] == 'T' as u8
            &&& head[7] == 4
            &&& head[8] + 256 * head[9] + 65536 * head[10] + 16777216 * head[11] == header.len()
            &&& head[12 + i] == header[i]
        }),
{
    bytes::numbers_are_stored_lowest_byte_first(header.len());
}

/// A record stands behind its length, which is in four bytes, lowest first.
pub proof fn a_record_stands_behind_its_length(record: Seq<u8>, i: int)
    requires
        record.len() <= u32::MAX,
        0 <= i < record.len(),
    ensures
        ({
            let framed = frame(record);
            &&& framed.len() == 4 + record.len()
            &&& framed[0] + 256 * framed[1] + 65536 * framed[2] + 16777216 * framed[3]
                == record.len()
            &&& framed[4 + i] == record[i]
        }),
{
    bytes::numbers_are_stored_lowest_byte_first(record.len());
}

/// A reader goes on behind the magic exactly where it is that of this version; a file that is shorter,
/// or begins otherwise, is refused, and one of another version is told as such.
pub proof fn only_parts_of_this_version_are_read(got: Seq<u8>)
    requires
        got.len() <= 8,
    ensures
        ({
            let (next, event) = ReadState::Magic.step(got);
            let known = got.len() == 8 && got[0] == 'Q' as u8 && got[1] == 'S' as u8 && got[2]
                == 'B' as u8 && got[3] == 'P' as u8 && got[4] == 'A' as u8 && got[5] == 'R' as u8
                && got[6] == 'T' as u8;
            &&& event is More <==> known && got[7] == 4
            &&& event is More ==> next == ReadState::HeaderLength
            &&& event !is More ==> next == ReadState::Stopped
            &&& got.len() < 8 ==> event == EventView::Fault(ReadFault::TooShort)
            &&& known && got[7] != 4 ==> event == EventView::Fault(ReadFault::OtherVersion(got[7]))
            &&& got.len() == 8 && !known ==> event == EventView::Fault(ReadFault::BadMagic)
        }),
{
    if got.len() == 8 {
        let known = got[0] == 81 && got[1] == 83 && got[2] == 66 && got[3] == 80 && got[4] == 65
            && got[5] == 82 && got[6] == 84;
        if known {
            assert(got.take(7) =~= magic_prefix());
            if got[7] == 4 {
                assert(got =~= magic_bytes());
            } else {
                assert(magic_bytes()[7] == 4);
            }
        } else {
            if got.take(7) == magic_prefix() {
                assert(got.take(7)[0] == got[0] && got.take(7)[1] == got[1] && got.take(7)[2]
                    == got[2] && got.take(7)[3] == got[3] && got.take(7)[4] == got[4] && got.take(
                    7,
                )[5] == got[5] && got.take(7)[6] == got[6]);
            }
            if got == magic_bytes() {
                assert(magic_bytes()[0] == 81 && magic_bytes()[1] == 83 && magic_bytes()[2] == 66
                    && magic_bytes()[3] == 80 && magic_bytes()[4] == 65 && magic_bytes()[5] == 82
                    && magic_bytes()[6] == 84);
            }
        }
    }
}

/// No length above 256 MiB is believed, of a header or of a record: a reader that meets one stops, and
/// names it.
pub proof fn no_implausible_length_is_believed(a: u8, b: u8, c: u8, d: u8)
    ensures
        ({
            let len = a + 256 * b + 65536 * c + 16777216 * d;
            let (header, header_event) = ReadState::HeaderLength.step(seq![a, b, c, d]);
            let (record, record_event) = ReadState::Length(a).step(seq![b, c, d]);
            &&& len <= 256 * 1024 * 1024 ==> header == ReadState::Header(len as u32) && record
                == ReadState::Record(len as u32) && header_event is More && record_event is More
            &&& len > 256 * 1024 * 1024 ==> header == ReadState::Stopped && record
                == ReadState::Stopped && header_event == EventView::Fault(
                ReadFault::HeaderTooLong(len as u32),
            ) && record_event == EventView::Fault(ReadFault::RecordTooLong(len as u32))
        }),
{
    let all = seq![a, b, c, d];
    assert(seq![a] + seq![b, c, d] =~= all);
    assert(all.skip(1) =~= seq![b, c, d]);
    assert(all.skip(1).skip(1) =~= seq![c, d]);
    assert(all.skip(1).skip(1).skip(1) =~= seq![d]);
    assert(all.skip(1).skip(1).skip(1).skip(1).len() == 0);
    reveal_with_fuel(bytes::le_value, 5);
    assert(bytes::le_value(all) == a + 256 * b + 65536 * c + 16777216 * d);
}

} // verus!
