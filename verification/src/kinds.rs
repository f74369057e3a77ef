use vstd::prelude::*;

verus! {

/// The closed set of logical tables multiplexed over the engine.
#[derive(Clone, Copy, Debug, PartialEq, Eq, Structural)]
pub enum TableType {
    History,
    Cookies,
    Cache,
    LocalStore,
    Settings,
}

impl TableType {
    /// The stable one-byte identifier of the table, as stored on disk.
    pub open spec fn spec_to_u8(self) -> u8 {
        match self {
            TableType::History => 1,
            TableType::Cookies => 2,
            TableType::Cache => 3,
            TableType::LocalStore => 4,
            TableType::Settings => 5,
        }
    }

    pub fn to_u8(self) -> (r: u8)
        ensures
            r == self.spec_to_u8(),
    {
        match self {
            TableType::History => 1,
            TableType::Cookies => 2,
            TableType::Cache => 3,
            TableType::LocalStore => 4,
            TableType::Settings => 5,
        }
    }

    /// Reads the identifier back; unknown bytes fall back to History.
    pub open spec fn spec_from_u8(v: u8) -> TableType {
        match v {
            1u8 => TableType::History,
            2u8 => TableType::Cookies,
            3u8 => TableType::Cache,
            4u8 => TableType::LocalStore,
            5u8 => TableType::Settings,
            _ => TableType::History,
        }
    }

    pub fn from_u8(v: u8) -> (r: TableType)
        ensures
            r == TableType::spec_from_u8(v),
    {
        match v {
            1u8 => TableType::History,
            2u8 => TableType::Cookies,
            3u8 => TableType::Cache,
            4u8 => TableType::LocalStore,
            5u8 => TableType::Settings,
            _ => TableType::History,
        }
    }
}

/// The operation a framed record carries.
#[derive(Clone, Copy, Debug, PartialEq, Eq, Structural)]
pub enum EntryType {
    Insert,
    Update,
    Delete,
    BatchStart,
    BatchEnd,
}

impl EntryType {
    pub open spec fn spec_to_u8(self) -> u8 {
        match self {
            EntryType::Insert => 1,
            EntryType::Update => 2,
            EntryType::Delete => 3,
            EntryType::BatchStart => 4,
            EntryType::BatchEnd => 5,
        }
    }

    pub fn to_u8(self) -> (r: u8)
        ensures
            r == self.spec_to_u8(),
    {
        match self {
            EntryType::Insert => 1,
            EntryType::Update => 2,
            EntryType::Delete => 3,
            EntryType::BatchStart => 4,
            EntryType::BatchEnd => 5,
        }
    }

    /// Unknown bytes fall back to Insert.
    pub open spec fn spec_from_u8(v: u8) -> EntryType {
        match v {
            1u8 => EntryType::Insert,
            2u8 => EntryType::Update,
            3u8 => EntryType::Delete,
            4u8 => EntryType::BatchStart,
            5u8 => EntryType::BatchEnd,
            _ => EntryType::Insert,
        }
    }

    pub fn from_u8(v: u8) -> (r: EntryType)
        ensures
            r == EntryType::spec_from_u8(v),
    {
        match v {
            1u8 => EntryType::Insert,
            2u8 => EntryType::Update,
            3u8 => EntryType::Delete,
            4u8 => EntryType::BatchStart,
            5u8 => EntryType::BatchEnd,
            _ => EntryType::Insert,
        }
    }
}

/// Compression tag reserved in the file header; only Uncompressed is engaged.
#[derive(Clone, Copy, Debug, PartialEq, Eq, Structural)]
pub enum CompressionType {
    Uncompressed,
    Zlib,
    Lz4,
    Zstd,
}

impl CompressionType {
    pub open spec fn spec_to_u8(self) -> u8 {
        match self {
            CompressionType::Uncompressed => 0,
            CompressionType::Zlib => 1,
            CompressionType::Lz4 => 2,
            CompressionType::Zstd => 3,
        }
    }

    pub fn to_u8(self) -> (r: u8)
        ensures
            r == self.spec_to_u8(),
    {
        match self {
            CompressionType::Uncompressed => 0,
            CompressionType::Zlib => 1,
            CompressionType::Lz4 => 2,
            CompressionType::Zstd => 3,
        }
    }

    /// Unknown bytes fall back to Uncompressed.
    pub open spec fn spec_from_u8(v: u8) -> CompressionType {
        match v {
            0u8 => CompressionType::Uncompressed,
            1u8 => CompressionType::Zlib,
            2u8 => CompressionType::Lz4,
            3u8 => CompressionType::Zstd,
            _ => CompressionType::Uncompressed,
        }
    }

    pub fn from_u8(v: u8) -> (r: CompressionType)
        ensures
            r == CompressionType::spec_from_u8(v),
    {
        match v {
            0u8 => CompressionType::Uncompressed,
            1u8 => CompressionType::Zlib,
            2u8 => CompressionType::Lz4,
            3u8 => CompressionType::Zstd,
            _ => CompressionType::Uncompressed,
        }
    }
}

/// Encryption tag reserved in the file header; only Unencrypted is engaged.
#[derive(Clone, Copy, Debug, PartialEq, Eq, Structural)]
pub enum EncryptionType {
    Unencrypted,
    AES256,
    ChaCha20,
}

impl EncryptionType {
    pub open spec fn spec_to_u8(self) -> u8 {
        match self {
            EncryptionType::Unencrypted => 0,
            EncryptionType::AES256 => 1,
            EncryptionType::ChaCha20 => 2,
        }
    }

    pub fn to_u8(self) -> (r: u8)
        ensures
            r == self.spec_to_u8(),
    {
        match self {
            EncryptionType::Unencrypted => 0,
            EncryptionType::AES256 => 1,
            EncryptionType::ChaCha20 => 2,
        }
    }

    /// Unknown bytes fall back to Unencrypted.
    pub open spec fn spec_from_u8(v: u8) -> EncryptionType {
        match v {
            0u8 => EncryptionType::Unencrypted,
            1u8 => EncryptionType::AES256,
            2u8 => EncryptionType::ChaCha20,
            _ => EncryptionType::Unencrypted,
        }
    }

    pub fn from_u8(v: u8) -> (r: EncryptionType)
        ensures
            r == EncryptionType::spec_from_u8(v),
    {
        match v {
            0u8 => EncryptionType::Unencrypted,
            1u8 => EncryptionType::AES256,
            2u8 => EncryptionType::ChaCha20,
            _ => EncryptionType::Unencrypted,
        }
    }
}

/// Why a read of the on-disk format was rejected.
#[derive(Clone, Copy, Debug, PartialEq, Eq, Structural)]
pub enum CodecError {
    /// The input ended before the structure was complete.
    Truncated,
    /// A varint ran past the ten bytes a 64-bit value may occupy.
    VarintTooLong,
    /// The file does not start with the expected magic bytes.
    BadMagic,
    /// The format version is not the one this engine writes.
    BadVersion,
    /// A stored checksum does not match the recomputed one.
    CrcMismatch,
}

} // verus!
