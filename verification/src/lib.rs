//! An embedded key-value storage engine for browser-local state: a
//! log-structured merge engine per logical table behind a mode dispatcher,
//! with a verified binary format, Bloom-filter-gated lookups and a per-key
//! access-heat tracker. File and directory handling stays with the caller:
//! the engine computes file names and bytes and takes recovered files back.

pub mod bloom;
pub mod codec;
pub mod crc;
pub mod db;
pub mod heat;
pub mod kinds;
pub mod lsm;
pub mod memtable;
pub mod modes;
pub mod names;
pub mod order;
pub mod records;
pub mod sstable;
pub mod varint;
pub mod wire;

pub use bloom::BloomFilter;
pub use codec::{BDBFileFooter, BDBFileHeader, BDBLogEntry, BDB_VERSION};
pub use db::{BrowserDB, DatabaseStats, DbError};
pub use heat::{BDBKey, BDBValue, HeatEntry, HeatTracker, QueryType};
pub use kinds::{CodecError, CompressionType, EncryptionType, EntryType, TableType};
pub use lsm::{LSMTree, SstFile};
pub use memtable::{KVEntry, MemTable};
pub use modes::{
    CurrentMode, DatabaseMode, ModeConfig, ModeSwitcher, PersistentMode, UltraMode, UltraTable,
};
pub use records::{CacheEntry, CookieEntry, HistoryEntry, LocalStoreEntry, SettingEntry};
pub use sstable::{IndexEntry, SSTable};
pub use varint::{read_varint, write_varint};
