use browserdb::codec::{BDBFileFooter, BDBFileHeader, BDBLogEntry};
use browserdb::kinds::{CodecError, CompressionType, EncryptionType, EntryType, TableType};
use browserdb::varint::{read_varint, write_varint};

fn varint_round_trip(x: u64) {
    let mut buf: Vec<u8> = Vec::new();
    let n = write_varint(&mut buf, x);
    assert_eq!(n, buf.len());
    let (value, end) = read_varint(&buf, 0).expect("written varint must read back");
    assert_eq!(value, x);
    assert_eq!(end, n);
}

#[test]
fn varint_round_trip_values() {
    varint_round_trip(0);
    varint_round_trip(1);
    varint_round_trip(127);
    varint_round_trip(128);
    varint_round_trip(300);
    varint_round_trip(16383);
    varint_round_trip(16384);
    varint_round_trip(u64::MAX);
}

#[test]
fn varint_round_trip_survives_suffix() {
    let mut buf: Vec<u8> = Vec::new();
    write_varint(&mut buf, 624485);
    buf.push(0xff);
    buf.push(0xff);
    let (value, end) = read_varint(&buf, 0).expect("varint with trailing bytes must read");
    assert_eq!(value, 624485);
    assert_eq!(end, 3);
}

#[test]
fn varint_read_errors() {
    let empty: Vec<u8> = Vec::new();
    assert_eq!(read_varint(&empty, 0).unwrap_err(), CodecError::Truncated);
    let cut = vec![0x80u8, 0x80u8];
    assert_eq!(read_varint(&cut, 0).unwrap_err(), CodecError::Truncated);
    let over = vec![0x80u8; 10];
    assert_eq!(read_varint(&over, 0).unwrap_err(), CodecError::VarintTooLong);
}

#[test]
fn frame_round_trip() {
    let mut entry = BDBLogEntry::new(
        EntryType::Insert,
        b"alpha".to_vec(),
        b"first value".to_vec(),
        1700000000123,
    );
    let mut buf: Vec<u8> = Vec::new();
    let n = entry.write(&mut buf);
    assert_eq!(n, buf.len());
    let (read_back, end) = BDBLogEntry::read(&buf, 0).expect("written frame must read back");
    assert_eq!(end, n);
    assert_eq!(read_back.entry_type, EntryType::Insert);
    assert_eq!(read_back.key, b"alpha".to_vec());
    assert_eq!(read_back.value, b"first value".to_vec());
    assert_eq!(read_back.timestamp, 1700000000123);
    // The stored checksum matches one recomputed over the read fields.
    assert_eq!(read_back.entry_crc, read_back.calculate_crc());
    assert_ne!(read_back.entry_crc, 0);
}

#[test]
fn frame_read_truncated() {
    let mut entry = BDBLogEntry::new(EntryType::Update, b"k".to_vec(), b"v".to_vec(), 5);
    let mut buf: Vec<u8> = Vec::new();
    let n = entry.write(&mut buf);
    for cut in 0..n {
        let r = BDBLogEntry::read(&buf[..cut], 0);
        assert!(r.is_err(), "cut at {} must not parse", cut);
    }
}

#[test]
fn frame_read_carries_unchecked_crc() {
    // The codec-level read returns the stored checksum as read; validation
    // lives in the sorted file's scan and point lookup.
    let mut entry = BDBLogEntry::new(EntryType::Insert, b"kk".to_vec(), b"payload".to_vec(), 8);
    let mut buf: Vec<u8> = Vec::new();
    entry.write(&mut buf);
    // Corrupt one payload byte; the length fields stay intact.
    buf[5] ^= 0x40;
    let (read_back, _) = BDBLogEntry::read(&buf, 0).expect("shape still parses");
    assert_ne!(read_back.entry_crc, read_back.calculate_crc());
}

#[test]
fn frame_crc_detects_value_change() {
    // Two frames differing in one payload byte carry different checksums, so
    // the checksum really depends on the bytes handed to it.
    let a = BDBLogEntry::new(EntryType::Insert, b"k".to_vec(), b"va".to_vec(), 7);
    let b = BDBLogEntry::new(EntryType::Insert, b"k".to_vec(), b"vb".to_vec(), 7);
    assert_ne!(a.calculate_crc(), b.calculate_crc());
}

#[test]
fn header_round_trip() {
    let mut header = BDBFileHeader::new(TableType::Cookies, 1699999999999);
    let mut buf: Vec<u8> = Vec::new();
    header.write(&mut buf);
    assert_eq!(buf.len(), 47);
    let (read_back, end) = BDBFileHeader::read(&buf, 0).expect("written header must read back");
    assert_eq!(end, 47);
    assert_eq!(read_back.version, 1);
    assert_eq!(read_back.created_at, 1699999999999);
    assert_eq!(read_back.modified_at, 1699999999999);
    assert_eq!(read_back.table_type, TableType::Cookies);
    assert_eq!(read_back.compression, CompressionType::Uncompressed);
    assert_eq!(read_back.encryption, EncryptionType::Unencrypted);
    assert_eq!(read_back.header_crc, header.header_crc);
}

#[test]
fn header_rejects_bad_magic() {
    let mut header = BDBFileHeader::new(TableType::History, 1);
    let mut buf: Vec<u8> = Vec::new();
    header.write(&mut buf);
    buf[0] ^= 0x01;
    assert_eq!(BDBFileHeader::read(&buf, 0).unwrap_err(), CodecError::BadMagic);
}

#[test]
fn header_rejects_bad_version() {
    let mut header = BDBFileHeader::new(TableType::History, 1);
    let mut buf: Vec<u8> = Vec::new();
    header.write(&mut buf);
    buf[9] = 2;
    assert_eq!(BDBFileHeader::read(&buf, 0).unwrap_err(), CodecError::BadVersion);
}

#[test]
fn header_rejects_every_single_bit_flip_in_covered_region() {
    let mut header = BDBFileHeader::new(TableType::Settings, 1700000000000);
    let mut buf: Vec<u8> = Vec::new();
    header.write(&mut buf);
    // The checksum is recomputed over the raw 43 covered bytes as stored,
    // so flipping any single bit of them is caught — as the magic check,
    // the version check, or the checksum comparison.
    for byte in 0..43usize {
        for bit in 0..8u32 {
            let mut corrupted = buf.clone();
            corrupted[byte] ^= 1u8 << bit;
            let r = BDBFileHeader::read(&corrupted, 0);
            assert!(
                r.is_err(),
                "flipping bit {} of byte {} must be caught",
                bit,
                byte
            );
        }
    }
}

#[test]
fn header_rejects_corrupt_timestamp_with_crc_mismatch() {
    let mut header = BDBFileHeader::new(TableType::History, 1700000000000);
    let mut buf: Vec<u8> = Vec::new();
    header.write(&mut buf);
    // Corrupting a timestamp byte leaves magic and version intact, so the
    // failure is the checksum comparison itself.
    buf[10] ^= 0x10;
    assert_eq!(BDBFileHeader::read(&buf, 0).unwrap_err(), CodecError::CrcMismatch);
}

#[test]
fn header_read_truncated() {
    let mut header = BDBFileHeader::new(TableType::Cache, 42);
    let mut buf: Vec<u8> = Vec::new();
    header.write(&mut buf);
    assert_eq!(BDBFileHeader::read(&buf[..8], 0).unwrap_err(), CodecError::Truncated);
    assert_eq!(BDBFileHeader::read(&buf[..46], 0).unwrap_err(), CodecError::Truncated);
}

#[test]
fn footer_round_trip() {
    let mut footer = BDBFileFooter::new();
    footer.entry_count = 12;
    footer.file_size = 3456;
    footer.data_offset = 47;
    footer.max_entry_size = 200;
    footer.total_key_size = 120;
    footer.total_value_size = 2400;
    footer.file_crc = 0xdeadbeef;
    let mut buf: Vec<u8> = Vec::new();
    footer.write(&mut buf);
    assert_eq!(buf.len(), 52);
    let (read_back, end) = BDBFileFooter::read(&buf, 0).expect("written footer must read back");
    assert_eq!(end, 52);
    assert_eq!(read_back.entry_count, 12);
    assert_eq!(read_back.file_size, 3456);
    assert_eq!(read_back.data_offset, 47);
    assert_eq!(read_back.max_entry_size, 200);
    assert_eq!(read_back.total_key_size, 120);
    assert_eq!(read_back.total_value_size, 2400);
    assert_eq!(read_back.compression_ratio, 100);
    assert_eq!(read_back.file_crc, 0xdeadbeef);
    assert_eq!(BDBFileFooter::read(&buf[..51], 0).unwrap_err(), CodecError::Truncated);
}
