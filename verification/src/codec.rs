use vstd::bytes::{
    spec_u16_from_le_bytes, spec_u16_to_le_bytes, spec_u32_from_le_bytes, spec_u32_to_le_bytes,
    spec_u64_from_le_bytes, spec_u64_to_le_bytes,
};
use vstd::prelude::*;

use crate::crc::{crc32, crc32_of};
use crate::kinds::{CodecError, EntryType};
use crate::varint::{
    lemma_parse_varint_len, lemma_varint_len, lemma_varint_round_trip, read_varint, spec_varint,
    spec_parse_varint, write_varint, VarintParse,
};
use crate::kinds::{CompressionType, EncryptionType, TableType};
use crate::wire::{
    bytes_eq, push_bytes, push_u16_le, push_u32_le, push_u64_le, read_bytes, read_u16_le,
    read_u32_le, read_u64_le,
};

verus! {

/// The mathematical image of a framed log entry.
pub struct LogEntryView {
    pub entry_type: EntryType,
    pub key: Seq<u8>,
    pub value: Seq<u8>,
    pub timestamp: u64,
    pub entry_crc: u32,
}

/// One framed record of the log: an operation kind, a key, a value, the
/// write's wall-clock timestamp, and a checksum over kind, key, value and
/// timestamp (the length varints are not covered, by design of the format).
#[derive(Debug, Clone)]
pub struct BDBLogEntry {
    pub entry_type: EntryType,
    pub key: Vec<u8>,
    pub value: Vec<u8>,
    pub timestamp: u64,
    pub entry_crc: u32,
}

impl View for BDBLogEntry {
    type V = LogEntryView;

    open spec fn view(&self) -> LogEntryView {
        LogEntryView {
            entry_type: self.entry_type,
            key: self.key@,
            value: self.value@,
            timestamp: self.timestamp,
            entry_crc: self.entry_crc,
        }
    }
}

/// The bytes the frame checksum covers: kind, key, value, timestamp.
pub open spec fn spec_entry_crc_input(
    t: EntryType,
    key: Seq<u8>,
    value: Seq<u8>,
    ts: u64,
) -> Seq<u8> {
    seq![t.spec_to_u8()] + key + value + spec_u64_to_le_bytes(ts)
}

/// The frame layout: kind byte, varint key length, varint value length,
/// key bytes, value bytes, little-endian timestamp, little-endian checksum.
pub open spec fn spec_entry_frame(t: EntryType, key: Seq<u8>, value: Seq<u8>, ts: u64) -> Seq<u8> {
    seq![t.spec_to_u8()] + spec_varint(key.len() as u64) + spec_varint(value.len() as u64) + key
        + value + spec_u64_to_le_bytes(ts) + spec_u32_to_le_bytes(
        crc32_of(spec_entry_crc_input(t, key, value, ts)),
    )
}

/// How long the frame of an entry with these key and value lengths is.
pub open spec fn spec_entry_frame_len(key: Seq<u8>, value: Seq<u8>) -> int {
    1int + spec_varint(key.len() as u64).len() + spec_varint(value.len() as u64).len() + key.len()
        + value.len() + 12
}

/// What scanning bytes as one frame yields.
pub enum EntryParse {
    /// The entry and the count of bytes its frame occupies.
    Found(LogEntryView, int),
    /// Why the scan failed.
    Fail(CodecError),
}

/// Scans one frame at the front of `data`. The stored checksum is carried
/// in the result and not verified at this layer; the sorted file's scan and
/// point lookup compare it against the recomputed one.
pub open spec fn spec_parse_entry(data: Seq<u8>) -> EntryParse {
    if data.len() == 0 {
        EntryParse::Fail(CodecError::Truncated)
    } else {
        let t = EntryType::spec_from_u8(data[0]);
        match spec_parse_varint(data.skip(1), 10) {
            VarintParse::Short => EntryParse::Fail(CodecError::Truncated),
            VarintParse::Over => EntryParse::Fail(CodecError::VarintTooLong),
            VarintParse::Val(klv, n1) => {
                let kl = klv % 0x1_0000_0000_0000_0000;
                match spec_parse_varint(data.skip(1 + n1 as int), 10) {
                    VarintParse::Short => EntryParse::Fail(CodecError::Truncated),
                    VarintParse::Over => EntryParse::Fail(CodecError::VarintTooLong),
                    VarintParse::Val(vlv, n2) => {
                        let vl = vlv % 0x1_0000_0000_0000_0000;
                        let p: int = 1 + n1 as int + n2 as int;
                        if data.len() - p < kl {
                            EntryParse::Fail(CodecError::Truncated)
                        } else if data.len() - (p + kl) < vl {
                            EntryParse::Fail(CodecError::Truncated)
                        } else if data.len() - (p + kl + vl) < 12 {
                            EntryParse::Fail(CodecError::Truncated)
                        } else {
                            let key = data.subrange(p, p + kl);
                            let value = data.subrange(p + kl, p + kl + vl);
                            let q = p + kl + vl;
                            EntryParse::Found(
                                LogEntryView {
                                    entry_type: t,
                                    key: key,
                                    value: value,
                                    timestamp: spec_u64_from_le_bytes(data.subrange(q, q + 8)),
                                    entry_crc: spec_u32_from_le_bytes(
                                        data.subrange(q + 8, q + 12),
                                    ),
                                },
                                q + 12,
                            )
                        }
                    },
                }
            },
        }
    }
}

impl BDBLogEntry {
    /// Builds an entry carrying the caller's wall-clock timestamp; the
    /// checksum field starts at zero and is filled in by `write`.
    pub fn new(entry_type: EntryType, key: Vec<u8>, value: Vec<u8>, timestamp: u64) -> (r:
        BDBLogEntry)
        ensures
            r@ == (LogEntryView {
                entry_type,
                key: key@,
                value: value@,
                timestamp,
                entry_crc: 0u32,
            }),
    {
        BDBLogEntry { entry_type, key, value, timestamp, entry_crc: 0 }
    }

    /// The checksum over kind, key, value and timestamp.
    pub fn calculate_crc(&self) -> (r: u32)
        requires
            self.key@.len() + self.value@.len() + 9 <= usize::MAX,
        ensures
            r == crc32_of(
                spec_entry_crc_input(self.entry_type, self.key@, self.value@, self.timestamp),
            ),
    {
        let mut buf: Vec<u8> = Vec::new();
        buf.push(self.entry_type.to_u8());
        push_bytes(&mut buf, self.key.as_slice());
        push_bytes(&mut buf, self.value.as_slice());
        push_u64_le(&mut buf, self.timestamp);
        proof {
            assert(buf@ =~= spec_entry_crc_input(
                self.entry_type,
                self.key@,
                self.value@,
                self.timestamp,
            ));
        }
        crc32(buf.as_slice())
    }

    /// Fills in the checksum field and appends the frame to `out`; returns
    /// how many bytes were written.
    pub fn write(&mut self, out: &mut Vec<u8>) -> (n: usize)
        requires
            old(self).key@.len() + old(self).value@.len() + 9 <= usize::MAX,
            old(out)@.len() + spec_entry_frame_len(old(self).key@, old(self).value@)
                <= usize::MAX,
        ensures
            final(self)@ == (LogEntryView {
                entry_crc: crc32_of(
                    spec_entry_crc_input(
                        old(self).entry_type,
                        old(self).key@,
                        old(self).value@,
                        old(self).timestamp,
                    ),
                ),
                ..old(self)@
            }),
            final(out)@ == old(out)@ + spec_entry_frame(
                old(self).entry_type,
                old(self).key@,
                old(self).value@,
                old(self).timestamp,
            ),
            n == spec_entry_frame_len(old(self).key@, old(self).value@),
    {
        proof {
            lemma_varint_len(self.key@.len() as u64);
            lemma_varint_len(self.value@.len() as u64);
            vstd::bytes::lemma_auto_spec_u64_to_from_le_bytes();
            vstd::bytes::lemma_auto_spec_u32_to_from_le_bytes();
        }
        self.entry_crc = self.calculate_crc();
        let mut n: usize = 0;
        out.push(self.entry_type.to_u8());
        n = n + 1;
        n = n + write_varint(out, self.key.len() as u64);
        n = n + write_varint(out, self.value.len() as u64);
        push_bytes(out, self.key.as_slice());
        n = n + self.key.len();
        push_bytes(out, self.value.as_slice());
        n = n + self.value.len();
        push_u64_le(out, self.timestamp);
        n = n + 8;
        proof {
            assert(out@.len() + 4 <= usize::MAX);
        }
        push_u32_le(out, self.entry_crc);
        n = n + 4;
        proof {
            assert(out@ =~= old(out)@ + spec_entry_frame(
                old(self).entry_type,
                old(self).key@,
                old(self).value@,
                old(self).timestamp,
            ));
        }
        n
    }

    /// Scans one frame from `data` at `offset`. On success returns the entry
    /// and the offset just past its frame. Fails with Truncated when the
    /// input ends inside the frame and with VarintTooLong when a length
    /// varint runs past ten bytes. The stored checksum is returned as read;
    /// the sorted file's scan and point lookup compare it with
    /// `calculate_crc` and treat a mismatch as corruption.
    pub fn read(data: &[u8], offset: usize) -> (r: Result<(BDBLogEntry, usize), CodecError>)
        requires
            offset <= data@.len(),
        ensures
            match spec_parse_entry(data@.skip(offset as int)) {
                EntryParse::Found(v, n) => match r {
                    Ok((e, end)) => e@ == v && end == offset + n,
                    Err(_) => false,
                },
                EntryParse::Fail(err) => r == Err::<(BDBLogEntry, usize), CodecError>(err),
            },
    {
        let ghost whole = data@.skip(offset as int);
        if offset >= data.len() {
            return Err(CodecError::Truncated);
        }
        let t = EntryType::from_u8(data[offset]);
        proof {
            assert(whole[0] == data@[offset as int]);
            assert(whole.skip(1) =~= data@.skip(offset as int + 1));
        }
        let kl_parsed = match read_varint(data, offset + 1) {
            Ok(p) => p,
            Err(e) => {
                return Err(e);
            },
        };
        let kl: u64 = kl_parsed.0;
        let pos1: usize = kl_parsed.1;
        proof {
            lemma_parse_varint_len(data@.skip(offset as int + 1), 10);
            assert(whole.skip(1 + (pos1 - (offset + 1))) =~= data@.skip(pos1 as int));
        }
        let vl_parsed = match read_varint(data, pos1) {
            Ok(p) => p,
            Err(e) => {
                return Err(e);
            },
        };
        let vl: u64 = vl_parsed.0;
        let pos2: usize = vl_parsed.1;
        proof {
            lemma_parse_varint_len(data@.skip(pos1 as int), 10);
        }
        if kl > (data.len() - pos2) as u64 {
            return Err(CodecError::Truncated);
        }
        let key_end: usize = pos2 + (kl as usize);
        if vl > (data.len() - key_end) as u64 {
            return Err(CodecError::Truncated);
        }
        let value_end: usize = key_end + (vl as usize);
        if data.len() - value_end < 12 {
            return Err(CodecError::Truncated);
        }
        let key = read_bytes(data, pos2, kl as usize);
        let value = read_bytes(data, key_end, vl as usize);
        let timestamp = read_u64_le(data, value_end);
        let entry_crc = read_u32_le(data, value_end + 8);
        proof {
            let p = pos2 - offset;
            assert(whole.subrange(p as int, p + kl) =~= data@.subrange(
                pos2 as int,
                pos2 + kl,
            ));
            assert(whole.subrange(p + kl, p + kl + vl) =~= data@.subrange(
                key_end as int,
                key_end + vl,
            ));
            assert(whole.subrange(p + kl + vl, p + kl + vl + 8) =~= data@.subrange(
                value_end as int,
                value_end + 8,
            ));
            assert(whole.subrange(p + kl + vl + 8, p + kl + vl + 12) =~= data@.subrange(
                value_end + 8,
                value_end + 12,
            ));
        }
        Ok((BDBLogEntry { entry_type: t, key, value, timestamp, entry_crc }, value_end + 12))
    }
}

/// Whether a frame's stored checksum matches one recomputed over its kind,
/// key, value and timestamp — the covered bytes of the frame format.
pub open spec fn frame_crc_valid(v: LogEntryView) -> bool {
    v.entry_crc == crc32_of(spec_entry_crc_input(v.entry_type, v.key, v.value, v.timestamp))
}

/// A found frame's key and value are shorter than the frame itself, which
/// fits the input.
pub proof fn lemma_parse_entry_field_lens(data: Seq<u8>)
    ensures
        match spec_parse_entry(data) {
            EntryParse::Found(v, n) => v.key.len() + v.value.len() + 13 <= n <= data.len(),
            EntryParse::Fail(_) => true,
        },
{
    if data.len() > 0 {
        lemma_parse_varint_len(data.skip(1), 10);
        match spec_parse_varint(data.skip(1), 10) {
            VarintParse::Val(klv, n1) => {
                lemma_parse_varint_len(data.skip(1 + n1 as int), 10);
            },
            _ => {},
        }
    }
}

/// A found frame spans at least its thirteen fixed bytes and at most the
/// whole input.
pub proof fn lemma_parse_entry_len(data: Seq<u8>)
    ensures
        match spec_parse_entry(data) {
            EntryParse::Found(v, n) => 13 <= n <= data.len(),
            EntryParse::Fail(_) => true,
        },
{
    if data.len() > 0 {
        lemma_parse_varint_len(data.skip(1), 10);
        match spec_parse_varint(data.skip(1), 10) {
            VarintParse::Val(klv, n1) => {
                lemma_parse_varint_len(data.skip(1 + n1 as int), 10);
            },
            _ => {},
        }
    }
}

/// Reading a written frame yields the entry back, its checksum filled in,
/// whatever follows the frame.
#[verifier::rlimit(50)]
#[verifier::spinoff_prover]
pub proof fn lemma_entry_round_trip(
    t: EntryType,
    key: Seq<u8>,
    value: Seq<u8>,
    ts: u64,
    suffix: Seq<u8>,
)
    requires
        key.len() <= usize::MAX,
        value.len() <= usize::MAX,
    ensures
        spec_parse_entry(spec_entry_frame(t, key, value, ts) + suffix) == EntryParse::Found(
            LogEntryView {
                entry_type: t,
                key: key,
                value: value,
                timestamp: ts,
                entry_crc: crc32_of(spec_entry_crc_input(t, key, value, ts)),
            },
            spec_entry_frame_len(key, value),
        ),
{
    let frame = spec_entry_frame(t, key, value, ts);
    let data = frame + suffix;
    let kv = spec_varint(key.len() as u64);
    let vv = spec_varint(value.len() as u64);
    lemma_varint_len(key.len() as u64);
    lemma_varint_len(value.len() as u64);
    vstd::bytes::lemma_auto_spec_u64_to_from_le_bytes();
    vstd::bytes::lemma_auto_spec_u32_to_from_le_bytes();
    assert(data[0] == t.spec_to_u8());
    assert(EntryType::spec_from_u8(t.spec_to_u8()) == t);
    assert(data.skip(1) =~= kv + (vv + key + value + spec_u64_to_le_bytes(ts)
        + spec_u32_to_le_bytes(crc32_of(spec_entry_crc_input(t, key, value, ts))) + suffix));
    lemma_varint_round_trip(
        key.len() as u64,
        vv + key + value + spec_u64_to_le_bytes(ts) + spec_u32_to_le_bytes(
            crc32_of(spec_entry_crc_input(t, key, value, ts)),
        ) + suffix,
    );
    let n1 = kv.len();
    assert(data.skip(1 + n1 as int) =~= vv + (key + value + spec_u64_to_le_bytes(ts)
        + spec_u32_to_le_bytes(crc32_of(spec_entry_crc_input(t, key, value, ts))) + suffix));
    lemma_varint_round_trip(
        value.len() as u64,
        key + value + spec_u64_to_le_bytes(ts) + spec_u32_to_le_bytes(
            crc32_of(spec_entry_crc_input(t, key, value, ts)),
        ) + suffix,
    );
    let n2 = vv.len();
    let p: int = 1 + n1 as int + n2 as int;
    assert((key.len() as u64) as int % 0x1_0000_0000_0000_0000 == key.len());
    assert((value.len() as u64) as int % 0x1_0000_0000_0000_0000 == value.len());
    assert(data.subrange(p, p + key.len()) =~= key);
    assert(data.subrange(p + key.len(), p + key.len() + value.len()) =~= value);
    let q: int = p + key.len() + value.len();
    assert(data.subrange(q, q + 8) =~= spec_u64_to_le_bytes(ts));
    assert(data.subrange(q + 8, q + 12) =~= spec_u32_to_le_bytes(
        crc32_of(spec_entry_crc_input(t, key, value, ts)),
    ));
}

/// The nine magic bytes that open every database file.
pub open spec fn spec_magic() -> Seq<u8> {
    seq![0x42u8, 0x52u8, 0x4fu8, 0x57u8, 0x53u8, 0x45u8, 0x52u8, 0x44u8, 0x42u8]
}

/// The magic bytes as an array, for storing in a header.
pub fn magic_bytes() -> (r: [u8; 9])
    ensures
        r@ == spec_magic(),
{
    let m: [u8; 9] = [0x42u8, 0x52u8, 0x4fu8, 0x57u8, 0x53u8, 0x45u8, 0x52u8, 0x44u8, 0x42u8];
    proof {
        assert(m@ =~= spec_magic());
    }
    m
}

/// The format version this engine writes.
pub const BDB_VERSION: u8 = 1;

/// The mathematical image of a file header.
pub struct FileHeaderView {
    pub magic: Seq<u8>,
    pub version: u8,
    pub created_at: u64,
    pub modified_at: u64,
    pub flags: u32,
    pub reserved: u32,
    pub table_type: TableType,
    pub compression: CompressionType,
    pub encryption: EncryptionType,
    pub reserved_bytes: Seq<u8>,
    pub header_crc: u32,
}

/// The fixed 47-byte file header: magic, version, two timestamps, flags,
/// a reserved word, three one-byte tags, six reserved bytes, and a checksum
/// over everything before it.
#[derive(Debug, Clone)]
pub struct BDBFileHeader {
    pub magic: [u8; 9],
    pub version: u8,
    pub created_at: u64,
    pub modified_at: u64,
    pub flags: u32,
    pub reserved: u32,
    pub table_type: TableType,
    pub compression: CompressionType,
    pub encryption: EncryptionType,
    pub reserved_bytes: [u8; 6],
    pub header_crc: u32,
}

impl View for BDBFileHeader {
    type V = FileHeaderView;

    open spec fn view(&self) -> FileHeaderView {
        FileHeaderView {
            magic: self.magic@,
            version: self.version,
            created_at: self.created_at,
            modified_at: self.modified_at,
            flags: self.flags,
            reserved: self.reserved,
            table_type: self.table_type,
            compression: self.compression,
            encryption: self.encryption,
            reserved_bytes: self.reserved_bytes@,
            header_crc: self.header_crc,
        }
    }
}

/// The bytes the header checksum covers: every field before the checksum.
pub open spec fn spec_header_covered(h: FileHeaderView) -> Seq<u8> {
    h.magic + seq![h.version] + spec_u64_to_le_bytes(h.created_at) + spec_u64_to_le_bytes(
        h.modified_at,
    ) + spec_u32_to_le_bytes(h.flags) + spec_u32_to_le_bytes(h.reserved) + seq![
        h.table_type.spec_to_u8(),
        h.compression.spec_to_u8(),
        h.encryption.spec_to_u8(),
    ] + h.reserved_bytes
}

/// The full header layout: the covered region followed by its checksum.
pub open spec fn spec_header_bytes(h: FileHeaderView) -> Seq<u8> {
    spec_header_covered(h) + spec_u32_to_le_bytes(h.header_crc)
}

/// The header read back from a 47-byte region.
pub open spec fn spec_header_of_bytes(data: Seq<u8>) -> FileHeaderView {
    FileHeaderView {
        magic: data.subrange(0, 9),
        version: data[9],
        created_at: spec_u64_from_le_bytes(data.subrange(10, 18)),
        modified_at: spec_u64_from_le_bytes(data.subrange(18, 26)),
        flags: spec_u32_from_le_bytes(data.subrange(26, 30)),
        reserved: spec_u32_from_le_bytes(data.subrange(30, 34)),
        table_type: TableType::spec_from_u8(data[34]),
        compression: CompressionType::spec_from_u8(data[35]),
        encryption: EncryptionType::spec_from_u8(data[36]),
        reserved_bytes: data.subrange(37, 43),
        header_crc: spec_u32_from_le_bytes(data.subrange(43, 47)),
    }
}

/// What scanning bytes as a file header yields.
pub enum HeaderParse {
    /// The header and the count of bytes it occupies.
    Found(FileHeaderView, int),
    /// Why the scan was rejected.
    Fail(CodecError),
}

/// Scans a header at the front of `data`: the magic bytes must match, the
/// version must be the one this engine writes, and the stored checksum must
/// equal the checksum recomputed over the raw 43 covered bytes as stored —
/// so any corruption of the covered region that the checksum can tell apart
/// is caught, whatever the corrupted bytes would decode to.
pub open spec fn spec_parse_header(data: Seq<u8>) -> HeaderParse {
    if data.len() < 9 {
        HeaderParse::Fail(CodecError::Truncated)
    } else if data.subrange(0, 9) != spec_magic() {
        HeaderParse::Fail(CodecError::BadMagic)
    } else if data.len() < 47 {
        HeaderParse::Fail(CodecError::Truncated)
    } else if data[9] != BDB_VERSION {
        HeaderParse::Fail(CodecError::BadVersion)
    } else {
        let h = spec_header_of_bytes(data);
        if h.header_crc != crc32_of(data.subrange(0, 43)) {
            HeaderParse::Fail(CodecError::CrcMismatch)
        } else {
            HeaderParse::Found(h, 47)
        }
    }
}

impl BDBFileHeader {
    /// A fresh header for a table, created and modified at the caller's
    /// wall-clock time; the checksum field starts at zero and is filled in
    /// by `write`.
    pub fn new(table_type: TableType, timestamp: u64) -> (r: BDBFileHeader)
        ensures
            r@ == (FileHeaderView {
                magic: spec_magic(),
                version: BDB_VERSION,
                created_at: timestamp,
                modified_at: timestamp,
                flags: 0u32,
                reserved: 0u32,
                table_type,
                compression: CompressionType::Uncompressed,
                encryption: EncryptionType::Unencrypted,
                reserved_bytes: seq![0u8, 0u8, 0u8, 0u8, 0u8, 0u8],
                header_crc: 0u32,
            }),
    {
        let reserved_bytes: [u8; 6] = [0u8, 0u8, 0u8, 0u8, 0u8, 0u8];
        proof {
            assert(reserved_bytes@ =~= seq![0u8, 0u8, 0u8, 0u8, 0u8, 0u8]);
        }
        BDBFileHeader {
            magic: magic_bytes(),
            version: BDB_VERSION,
            created_at: timestamp,
            modified_at: timestamp,
            flags: 0,
            reserved: 0,
            table_type,
            compression: CompressionType::Uncompressed,
            encryption: EncryptionType::Unencrypted,
            reserved_bytes,
            header_crc: 0,
        }
    }

    /// The checksum over every header field before the checksum itself.
    pub fn calculate_crc(&self) -> (r: u32)
        ensures
            r == crc32_of(spec_header_covered(self@)),
    {
        proof {
            vstd::bytes::lemma_auto_spec_u64_to_from_le_bytes();
            vstd::bytes::lemma_auto_spec_u32_to_from_le_bytes();
        }
        let mut buf: Vec<u8> = Vec::new();
        push_bytes(&mut buf, self.magic.as_slice());
        buf.push(self.version);
        push_u64_le(&mut buf, self.created_at);
        push_u64_le(&mut buf, self.modified_at);
        push_u32_le(&mut buf, self.flags);
        push_u32_le(&mut buf, self.reserved);
        buf.push(self.table_type.to_u8());
        buf.push(self.compression.to_u8());
        buf.push(self.encryption.to_u8());
        push_bytes(&mut buf, self.reserved_bytes.as_slice());
        proof {
            assert(buf@ =~= spec_header_covered(self@));
        }
        crc32(buf.as_slice())
    }

    /// Fills in the checksum field and appends the 47-byte header to `out`.
    pub fn write(&mut self, out: &mut Vec<u8>)
        requires
            old(out)@.len() + 47 <= usize::MAX,
        ensures
            final(self)@ == (FileHeaderView { header_crc: crc32_of(spec_header_covered(old(self)@)), ..old(self)@ }),
            final(out)@ == old(out)@ + spec_header_bytes(final(self)@),
    {
        proof {
            vstd::bytes::lemma_auto_spec_u64_to_from_le_bytes();
            vstd::bytes::lemma_auto_spec_u32_to_from_le_bytes();
        }
        self.header_crc = self.calculate_crc();
        push_bytes(out, self.magic.as_slice());
        out.push(self.version);
        push_u64_le(out, self.created_at);
        push_u64_le(out, self.modified_at);
        push_u32_le(out, self.flags);
        push_u32_le(out, self.reserved);
        out.push(self.table_type.to_u8());
        out.push(self.compression.to_u8());
        out.push(self.encryption.to_u8());
        push_bytes(out, self.reserved_bytes.as_slice());
        push_u32_le(out, self.header_crc);
        proof {
            assert(spec_header_covered(self@) =~= spec_header_covered(
                FileHeaderView { header_crc: crc32_of(spec_header_covered(old(self)@)), ..old(self)@ },
            ));
            assert(out@ =~= old(out)@ + spec_header_bytes(self@));
        }
    }

    /// Scans a header from `data` at `offset`. Fails with Truncated when the
    /// input is too short, BadMagic when the magic bytes differ, BadVersion
    /// when the version byte is not the one this engine writes, and
    /// CrcMismatch when the stored checksum does not match the one recomputed
    /// over the raw 43 covered bytes as stored.
    pub fn read(data: &[u8], offset: usize) -> (r: Result<(BDBFileHeader, usize), CodecError>)
        requires
            offset <= data@.len(),
        ensures
            match spec_parse_header(data@.skip(offset as int)) {
                HeaderParse::Found(v, n) => match r {
                    Ok((h, end)) => h@ == v && end == offset + n,
                    Err(_) => false,
                },
                HeaderParse::Fail(err) => r == Err::<(BDBFileHeader, usize), CodecError>(err),
            },
    {
        let ghost whole = data@.skip(offset as int);
        let dlen = data.len();
        if dlen - offset < 9 {
            return Err(CodecError::Truncated);
        }
        let magic_read = read_bytes(data, offset, 9);
        let expected = magic_bytes();
        proof {
            assert(whole.subrange(0, 9) =~= data@.subrange(offset as int, offset + 9));
        }
        if !bytes_eq(magic_read.as_slice(), expected.as_slice()) {
            return Err(CodecError::BadMagic);
        }
        if dlen - offset < 47 {
            return Err(CodecError::Truncated);
        }
        let version = data[offset + 9];
        if version != BDB_VERSION {
            proof {
                assert(whole[9] == data@[offset + 9]);
            }
            return Err(CodecError::BadVersion);
        }
        let mut magic: [u8; 9] = [0u8; 9];
        let mut i: usize = 0;
        while i < 9
            invariant
                i <= 9,
                magic_read@.len() == 9,
                magic@.len() == 9,
                forall|j: int| 0 <= j < i ==> magic@[j] == magic_read@[j],
            decreases 9 - i,
        {
            magic[i] = magic_read[i];
            i = i + 1;
        }
        proof {
            assert(magic@ =~= whole.subrange(0, 9));
        }
        let created_at = read_u64_le(data, offset + 10);
        let modified_at = read_u64_le(data, offset + 18);
        let flags = read_u32_le(data, offset + 26);
        let reserved = read_u32_le(data, offset + 30);
        let table_type = TableType::from_u8(data[offset + 34]);
        let compression = CompressionType::from_u8(data[offset + 35]);
        let encryption = EncryptionType::from_u8(data[offset + 36]);
        let reserved_vec = read_bytes(data, offset + 37, 6);
        let mut reserved_bytes: [u8; 6] = [0u8; 6];
        let mut j: usize = 0;
        while j < 6
            invariant
                j <= 6,
                reserved_vec@.len() == 6,
                reserved_bytes@.len() == 6,
                forall|k: int| 0 <= k < j ==> reserved_bytes@[k] == reserved_vec@[k],
            decreases 6 - j,
        {
            reserved_bytes[j] = reserved_vec[j];
            j = j + 1;
        }
        let header_crc = read_u32_le(data, offset + 43);
        let header = BDBFileHeader {
            magic,
            version,
            created_at,
            modified_at,
            flags,
            reserved,
            table_type,
            compression,
            encryption,
            reserved_bytes,
            header_crc,
        };
        proof {
            assert(whole[9] == data@[offset + 9]);
            assert(whole[34] == data@[offset + 34]);
            assert(whole[35] == data@[offset + 35]);
            assert(whole[36] == data@[offset + 36]);
            assert(whole.subrange(10, 18) =~= data@.subrange(offset + 10, offset + 18));
            assert(whole.subrange(18, 26) =~= data@.subrange(offset + 18, offset + 26));
            assert(whole.subrange(26, 30) =~= data@.subrange(offset + 26, offset + 30));
            assert(whole.subrange(30, 34) =~= data@.subrange(offset + 30, offset + 34));
            assert(whole.subrange(37, 43) =~= data@.subrange(offset + 37, offset + 43));
            assert(whole.subrange(43, 47) =~= data@.subrange(offset + 43, offset + 47));
            assert(reserved_bytes@ =~= whole.subrange(37, 43));
            assert(header@ == spec_header_of_bytes(whole));
        }
        let covered = read_bytes(data, offset, 43);
        proof {
            assert(covered@ =~= whole.subrange(0, 43));
        }
        let computed = crc32(covered.as_slice());
        if computed != header_crc {
            return Err(CodecError::CrcMismatch);
        }
        Ok((header, offset + 47))
    }
}

/// Writing a header and reading the bytes back yields the header with its
/// checksum filled in, whatever follows it.
#[verifier::rlimit(50)]
#[verifier::spinoff_prover]
pub proof fn lemma_header_round_trip(h: FileHeaderView, suffix: Seq<u8>)
    requires
        h.magic == spec_magic(),
        h.version == BDB_VERSION,
        h.reserved_bytes.len() == 6,
        h.header_crc == crc32_of(spec_header_covered(h)),
    ensures
        spec_parse_header(spec_header_bytes(h) + suffix) == HeaderParse::Found(h, 47),
{
    let data = spec_header_bytes(h) + suffix;
    vstd::bytes::lemma_auto_spec_u64_to_from_le_bytes();
    vstd::bytes::lemma_auto_spec_u32_to_from_le_bytes();
    assert(data.subrange(0, 9) =~= h.magic);
    assert(data[9] == h.version);
    let parsed = spec_header_of_bytes(data);
    assert(data.subrange(10, 18) =~= spec_u64_to_le_bytes(h.created_at));
    assert(data.subrange(18, 26) =~= spec_u64_to_le_bytes(h.modified_at));
    assert(data.subrange(26, 30) =~= spec_u32_to_le_bytes(h.flags));
    assert(data.subrange(30, 34) =~= spec_u32_to_le_bytes(h.reserved));
    assert(data[34] == h.table_type.spec_to_u8());
    assert(data[35] == h.compression.spec_to_u8());
    assert(data[36] == h.encryption.spec_to_u8());
    assert(data.subrange(37, 43) =~= h.reserved_bytes);
    assert(data.subrange(43, 47) =~= spec_u32_to_le_bytes(h.header_crc));
    assert(data.subrange(0, 43) =~= spec_header_covered(h));
    assert(parsed == h);
}

/// The mathematical image of a file footer.
pub struct FileFooterView {
    pub entry_count: u64,
    pub file_size: u64,
    pub data_offset: u64,
    pub max_entry_size: u32,
    pub total_key_size: u64,
    pub total_value_size: u64,
    pub compression_ratio: u16,
    pub reserved: Seq<u8>,
    pub file_crc: u32,
}

/// The fixed 52-byte file footer of summary figures, written at file end.
#[derive(Debug, Clone)]
pub struct BDBFileFooter {
    pub entry_count: u64,
    pub file_size: u64,
    pub data_offset: u64,
    pub max_entry_size: u32,
    pub total_key_size: u64,
    pub total_value_size: u64,
    pub compression_ratio: u16,
    pub reserved: [u8; 2],
    pub file_crc: u32,
}

impl View for BDBFileFooter {
    type V = FileFooterView;

    open spec fn view(&self) -> FileFooterView {
        FileFooterView {
            entry_count: self.entry_count,
            file_size: self.file_size,
            data_offset: self.data_offset,
            max_entry_size: self.max_entry_size,
            total_key_size: self.total_key_size,
            total_value_size: self.total_value_size,
            compression_ratio: self.compression_ratio,
            reserved: self.reserved@,
            file_crc: self.file_crc,
        }
    }
}

/// The footer layout: seven little-endian figures, two reserved bytes, and
/// the file checksum.
pub open spec fn spec_footer_bytes(f: FileFooterView) -> Seq<u8> {
    spec_u64_to_le_bytes(f.entry_count) + spec_u64_to_le_bytes(f.file_size) + spec_u64_to_le_bytes(
        f.data_offset,
    ) + spec_u32_to_le_bytes(f.max_entry_size) + spec_u64_to_le_bytes(f.total_key_size)
        + spec_u64_to_le_bytes(f.total_value_size) + spec_u16_to_le_bytes(f.compression_ratio)
        + f.reserved + spec_u32_to_le_bytes(f.file_crc)
}

/// The footer read back from a 52-byte region.
pub open spec fn spec_footer_of_bytes(data: Seq<u8>) -> FileFooterView {
    FileFooterView {
        entry_count: spec_u64_from_le_bytes(data.subrange(0, 8)),
        file_size: spec_u64_from_le_bytes(data.subrange(8, 16)),
        data_offset: spec_u64_from_le_bytes(data.subrange(16, 24)),
        max_entry_size: spec_u32_from_le_bytes(data.subrange(24, 28)),
        total_key_size: spec_u64_from_le_bytes(data.subrange(28, 36)),
        total_value_size: spec_u64_from_le_bytes(data.subrange(36, 44)),
        compression_ratio: spec_u16_from_le_bytes(data.subrange(44, 46)),
        reserved: data.subrange(46, 48),
        file_crc: spec_u32_from_le_bytes(data.subrange(48, 52)),
    }
}

impl BDBFileFooter {
    /// A fresh footer with zeroed figures and a nominal compression ratio.
    pub fn new() -> (r: BDBFileFooter)
        ensures
            r@ == (FileFooterView {
                entry_count: 0u64,
                file_size: 0u64,
                data_offset: 0u64,
                max_entry_size: 0u32,
                total_key_size: 0u64,
                total_value_size: 0u64,
                compression_ratio: 100u16,
                reserved: seq![0u8, 0u8],
                file_crc: 0u32,
            }),
    {
        let reserved: [u8; 2] = [0u8, 0u8];
        proof {
            assert(reserved@ =~= seq![0u8, 0u8]);
        }
        BDBFileFooter {
            entry_count: 0,
            file_size: 0,
            data_offset: 0,
            max_entry_size: 0,
            total_key_size: 0,
            total_value_size: 0,
            compression_ratio: 100,
            reserved,
            file_crc: 0,
        }
    }

    /// Appends the 52-byte footer to `out`.
    pub fn write(&self, out: &mut Vec<u8>)
        requires
            old(out)@.len() + 52 <= usize::MAX,
        ensures
            final(out)@ == old(out)@ + spec_footer_bytes(self@),
    {
        proof {
            vstd::bytes::lemma_auto_spec_u64_to_from_le_bytes();
            vstd::bytes::lemma_auto_spec_u32_to_from_le_bytes();
            vstd::bytes::lemma_auto_spec_u16_to_from_le_bytes();
        }
        push_u64_le(out, self.entry_count);
        push_u64_le(out, self.file_size);
        push_u64_le(out, self.data_offset);
        push_u32_le(out, self.max_entry_size);
        push_u64_le(out, self.total_key_size);
        push_u64_le(out, self.total_value_size);
        push_u16_le(out, self.compression_ratio);
        push_bytes(out, self.reserved.as_slice());
        push_u32_le(out, self.file_crc);
        proof {
            assert(out@ =~= old(out)@ + spec_footer_bytes(self@));
        }
    }

    /// Scans a footer from `data` at `offset`; fails with Truncated when
    /// fewer than 52 bytes remain.
    pub fn read(data: &[u8], offset: usize) -> (r: Result<(BDBFileFooter, usize), CodecError>)
        requires
            offset <= data@.len(),
        ensures
            data@.len() - offset >= 52 ==> match r {
                Ok((f, end)) => f@ == spec_footer_of_bytes(data@.skip(offset as int)) && end
                    == offset + 52,
                Err(_) => false,
            },
            data@.len() - offset < 52 ==> r == Err::<(BDBFileFooter, usize), CodecError>(
                CodecError::Truncated,
            ),
    {
        let ghost whole = data@.skip(offset as int);
        let dlen = data.len();
        if dlen - offset < 52 {
            return Err(CodecError::Truncated);
        }
        let entry_count = read_u64_le(data, offset);
        let file_size = read_u64_le(data, offset + 8);
        let data_offset = read_u64_le(data, offset + 16);
        let max_entry_size = read_u32_le(data, offset + 24);
        let total_key_size = read_u64_le(data, offset + 28);
        let total_value_size = read_u64_le(data, offset + 36);
        let compression_ratio = read_u16_le(data, offset + 44);
        let reserved_vec = read_bytes(data, offset + 46, 2);
        let mut reserved: [u8; 2] = [0u8, 0u8];
        reserved[0] = reserved_vec[0];
        reserved[1] = reserved_vec[1];
        let file_crc = read_u32_le(data, offset + 48);
        let footer = BDBFileFooter {
            entry_count,
            file_size,
            data_offset,
            max_entry_size,
            total_key_size,
            total_value_size,
            compression_ratio,
            reserved,
            file_crc,
        };
        proof {
            assert(whole.subrange(0, 8) =~= data@.subrange(offset as int, offset + 8));
            assert(whole.subrange(8, 16) =~= data@.subrange(offset + 8, offset + 16));
            assert(whole.subrange(16, 24) =~= data@.subrange(offset + 16, offset + 24));
            assert(whole.subrange(24, 28) =~= data@.subrange(offset + 24, offset + 28));
            assert(whole.subrange(28, 36) =~= data@.subrange(offset + 28, offset + 36));
            assert(whole.subrange(36, 44) =~= data@.subrange(offset + 36, offset + 44));
            assert(whole.subrange(44, 46) =~= data@.subrange(offset + 44, offset + 46));
            assert(whole.subrange(46, 48) =~= data@.subrange(offset + 46, offset + 48));
            assert(whole.subrange(48, 52) =~= data@.subrange(offset + 48, offset + 52));
            assert(reserved@ =~= whole.subrange(46, 48));
            assert(footer@ == spec_footer_of_bytes(whole));
        }
        Ok((footer, offset + 52))
    }
}

/// Writing a footer and reading the bytes back yields the same footer,
/// whatever follows it.
pub proof fn lemma_footer_round_trip(f: FileFooterView, suffix: Seq<u8>)
    requires
        f.reserved.len() == 2,
    ensures
        spec_footer_of_bytes(spec_footer_bytes(f) + suffix) == f,
{
    let data = spec_footer_bytes(f) + suffix;
    vstd::bytes::lemma_auto_spec_u64_to_from_le_bytes();
    vstd::bytes::lemma_auto_spec_u32_to_from_le_bytes();
    vstd::bytes::lemma_auto_spec_u16_to_from_le_bytes();
    assert(data.subrange(0, 8) =~= spec_u64_to_le_bytes(f.entry_count));
    assert(data.subrange(8, 16) =~= spec_u64_to_le_bytes(f.file_size));
    assert(data.subrange(16, 24) =~= spec_u64_to_le_bytes(f.data_offset));
    assert(data.subrange(24, 28) =~= spec_u32_to_le_bytes(f.max_entry_size));
    assert(data.subrange(28, 36) =~= spec_u64_to_le_bytes(f.total_key_size));
    assert(data.subrange(36, 44) =~= spec_u64_to_le_bytes(f.total_value_size));
    assert(data.subrange(44, 46) =~= spec_u16_to_le_bytes(f.compression_ratio));
    assert(data.subrange(46, 48) =~= f.reserved);
    assert(data.subrange(48, 52) =~= spec_u32_to_le_bytes(f.file_crc));
}

} // verus!
