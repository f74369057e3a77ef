use vstd::prelude::*;
use vstd::utf8::{decode_utf8, encode_utf8, valid_utf8};

use crate::kinds::TableType;
use crate::lsm::{LSMTree, SstFile};
use crate::memtable::{total_size, KVEntryView};
use crate::modes::{CurrentMode, DatabaseMode, ModeConfig, ModeSwitcher, PersistentMode, UltraMode, UltraTable};
use crate::records::{
    bytes_to_string, cookie_key, encode_cache, encode_cookie, encode_history, encode_localstore,
    history_key, lemma_history_round_trip, localstore_key, spec_cache_value, spec_cookie_key,
    spec_cookie_value, spec_history_key, spec_history_value, spec_localstore_key,
    spec_localstore_value, spec_parse_history, CacheEntry, CookieEntry, HistoryEntry,
    HistoryEntryView, LocalStoreEntry,
};
use crate::sstable::{concat_frames, live_entries};

verus! {

/// Why a facade operation failed: the stored bytes did not decode back to
/// the typed record.
#[derive(Clone, Copy, Debug, PartialEq, Eq, Structural)]
pub enum DbError {
    Corrupt,
}

/// Summary figures the facade reports; the engine keeps no running counters,
/// so every figure is zero, as in a freshly wiped database.
#[derive(Debug, Clone, Copy, PartialEq, Eq, Structural)]
pub struct DatabaseStats {
    pub total_entries: u64,
    pub history_entries: u64,
    pub cookie_entries: u64,
    pub cache_entries: u64,
    pub memory_usage_mb: u64,
    pub disk_usage_mb: u64,
}

/// The embedded database: five typed tables multiplexed over one dispatcher.
pub struct BrowserDB {
    pub switcher: ModeSwitcher,
}

/// The engine of `table` among the five persistent engines.
pub open spec fn lsm_of(pm: PersistentMode, table: TableType) -> LSMTree {
    match table {
        TableType::History => pm.history,
        TableType::Cookies => pm.cookies,
        TableType::Cache => pm.cache,
        TableType::LocalStore => pm.localstore,
        TableType::Settings => pm.settings,
    }
}

/// The in-memory table of `table` among the five.
pub open spec fn ultra_of(um: UltraMode, table: TableType) -> UltraTable {
    match table {
        TableType::History => um.history,
        TableType::Cookies => um.cookies,
        TableType::Cache => um.cache,
        TableType::LocalStore => um.localstore,
        TableType::Settings => um.settings,
    }
}

impl BrowserDB {
    /// The database's internal shape.
    pub open spec fn wf(self) -> bool {
        self.switcher.wf()
    }

    /// The value the live backing holds for `key` in `table`; a tombstone's
    /// stored value counts like any other, as the typed facades never write
    /// tombstones.
    pub open spec fn raw_lookup(self, table: TableType, key: Seq<u8>) -> Option<Seq<u8>> {
        match self.switcher.current_mode {
            CurrentMode::Persistent(pm) => match lsm_of(pm, table).spec_lookup(key) {
                Some(e) => Some(e.value),
                None => None,
            },
            CurrentMode::Ultra(um) => ultra_of(um, table).spec_get(key),
        }
    }

    /// What a raw write needs of the machine: room in the target table's
    /// buffer accounting and frame layout.
    pub open spec fn put_raw_pre(self, table: TableType, key: Seq<u8>, value: Seq<u8>) -> bool {
        match self.switcher.current_mode {
            CurrentMode::Persistent(pm) => {
                let t = lsm_of(pm, table);
                &&& total_size(t.memtable.view_seq()) + key.len() + value.len() + 9 <= usize::MAX
                &&& concat_frames(live_entries(t.memtable.view_seq())).len() + key.len()
                    + value.len() + 33 <= usize::MAX
                &&& t.memtable.view_seq().len() + 1 < 0x1_0000_0000
            },
            CurrentMode::Ultra(um) => total_size(ultra_of(um, table).data.view_seq()) + key.len()
                + value.len() + 9 <= usize::MAX,
        }
    }

    /// What a raw write did: in persistent mode the target engine followed
    /// its buffer-then-flush step and every other engine stood still; in the
    /// in-memory mode the target table now maps the key and nothing else
    /// moved.
    pub open spec fn put_raw_post(
        pre: BrowserDB,
        post: BrowserDB,
        table: TableType,
        key: Seq<u8>,
        value: Seq<u8>,
        now_ms: u64,
        r: Option<SstFile>,
    ) -> bool {
        &&& post.wf()
        &&& post.switcher.config == pre.switcher.config
        &&& match (pre.switcher.current_mode, post.switcher.current_mode) {
            (CurrentMode::Persistent(pm0), CurrentMode::Persistent(pm1)) => {
                let t0 = lsm_of(pm0, table);
                let t1 = lsm_of(pm1, table);
                let e = KVEntryView {
                    key,
                    value,
                    timestamp: now_ms,
                    entry_type: crate::kinds::EntryType::Insert,
                    deleted: false,
                };
                let b = crate::memtable::spec_put_seq(t0.memtable.view_seq(), e);
                &&& forall|other: TableType|
                    other != table ==> lsm_of(pm1, other) == lsm_of(pm0, other)
                &&& t1.memtable.max_size == t0.memtable.max_size
                &&& if total_size(b) >= t0.memtable.max_size {
                    &&& t1.memtable.view_seq() == Seq::<KVEntryView>::empty()
                    &&& t1.levels_model() == t0.levels_model().update(
                        0,
                        t0.levels_model()[0].push(live_entries(b)),
                    )
                    &&& match r {
                        Some(f) => f.name@ == crate::names::spec_sst_file_name(
                            t0.table_type,
                            0,
                            now_ms,
                            b.len() as u64,
                        ) && f.data@ == concat_frames(live_entries(b)),
                        None => false,
                    }
                } else {
                    &&& t1.memtable.view_seq() == b
                    &&& t1.levels_model() == t0.levels_model()
                    &&& r is None
                }
            },
            (CurrentMode::Ultra(um0), CurrentMode::Ultra(um1)) => {
                &&& ultra_of(um1, table).spec_get(key) == Some(value)
                &&& forall|k: Seq<u8>|
                    k != key ==> ultra_of(um1, table).spec_get(k) == ultra_of(
                        um0,
                        table,
                    ).spec_get(k)
                &&& forall|other: TableType|
                    other != table ==> ultra_of(um1, other) == ultra_of(um0, other)
                &&& r is None
            },
            _ => false,
        }
    }

    /// A database opened on the persistent backing with the default memory
    /// budget of one hundred megabytes shared by the five tables: all five
    /// engines come up empty, each buffer's threshold a fifth of the budget.
    pub fn new() -> (r: BrowserDB)
        ensures
            r.wf(),
            r.switcher.config == (ModeConfig {
                max_memory: 104857600usize,
                enable_compression: false,
                enable_heat_tracking: true,
            }),
            r.switcher.current_mode.is_fresh(DatabaseMode::Persistent, r.switcher.config),
    {
        let config = ModeConfig {
            max_memory: 104857600,
            enable_compression: false,
            enable_heat_tracking: true,
        };
        BrowserDB { switcher: ModeSwitcher::new(DatabaseMode::Persistent, config) }
    }

    /// Replaces the live backing with a wholly fresh one in the requested
    /// mode — all five tables empty — discarding the prior in-memory state.
    /// Always succeeds.
    pub fn set_mode(&mut self, mode: DatabaseMode) -> (r: Result<(), DbError>)
        ensures
            final(self).wf(),
            r is Ok,
            final(self).switcher.config == old(self).switcher.config,
            final(self).switcher.current_mode.is_fresh(mode, old(self).switcher.config),
    {
        self.switcher.switch_mode(mode);
        Ok(())
    }

    /// Stores raw bytes under a raw key in one table; hands back a newly
    /// flushed file for the caller to persist, where one was produced.
    pub fn put_raw(&mut self, table: TableType, key: Vec<u8>, value: Vec<u8>, now_ms: u64) -> (r:
        Option<SstFile>)
        requires
            old(self).wf(),
            old(self).put_raw_pre(table, key@, value@),
        ensures
            BrowserDB::put_raw_post(*old(self), *final(self), table, key@, value@, now_ms, r),
    {
        match &mut self.switcher.current_mode {
            CurrentMode::Persistent(pm) => match table {
                TableType::History => pm.history.put(key, value, now_ms),
                TableType::Cookies => pm.cookies.put(key, value, now_ms),
                TableType::Cache => pm.cache.put(key, value, now_ms),
                TableType::LocalStore => pm.localstore.put(key, value, now_ms),
                TableType::Settings => pm.settings.put(key, value, now_ms),
            },
            CurrentMode::Ultra(um) => {
                match table {
                    TableType::History => um.history.put(key, value),
                    TableType::Cookies => um.cookies.put(key, value),
                    TableType::Cache => um.cache.put(key, value),
                    TableType::LocalStore => um.localstore.put(key, value),
                    TableType::Settings => um.settings.put(key, value),
                }
                None
            },
        }
    }

    /// The raw bytes one table holds for a raw key.
    pub fn get_raw(&self, table: TableType, key: &[u8]) -> (r: Option<Vec<u8>>)
        requires
            self.wf(),
        ensures
            match r {
                Some(v) => self.raw_lookup(table, key@) == Some(v@),
                None => self.raw_lookup(table, key@) is None,
            },
    {
        match &self.switcher.current_mode {
            CurrentMode::Persistent(pm) => {
                let found = match table {
                    TableType::History => pm.history.get(key),
                    TableType::Cookies => pm.cookies.get(key),
                    TableType::Cache => pm.cache.get(key),
                    TableType::LocalStore => pm.localstore.get(key),
                    TableType::Settings => pm.settings.get(key),
                };
                match found {
                    Some(e) => Some(e.value),
                    None => None,
                }
            },
            CurrentMode::Ultra(um) => match table {
                TableType::History => um.history.get(key),
                TableType::Cookies => um.cookies.get(key),
                TableType::Cache => um.cache.get(key),
                TableType::LocalStore => um.localstore.get(key),
                TableType::Settings => um.settings.get(key),
            },
        }
    }

    /// Stores a history record under its address digest.
    pub fn insert_history(&mut self, entry: &HistoryEntry, now_ms: u64) -> (r: Option<SstFile>)
        requires
            old(self).wf(),
            encode_utf8(entry.title@).len() + 56 <= usize::MAX,
            old(self).put_raw_pre(
                TableType::History,
                spec_history_key(entry.url_hash),
                spec_history_value(entry@),
            ),
        ensures
            BrowserDB::put_raw_post(
                *old(self),
                *final(self),
                TableType::History,
                spec_history_key(entry.url_hash),
                spec_history_value(entry@),
                now_ms,
                r,
            ),
    {
        let key = history_key(entry.url_hash);
        let value = encode_history(entry);
        self.put_raw(TableType::History, key, value, now_ms)
    }

    /// The history record stored for an address digest, decoded; corrupt
    /// stored bytes are an error, absence is not.
    pub fn get_history(&self, url_hash: u128) -> (r: Result<Option<HistoryEntry>, DbError>)
        requires
            self.wf(),
        ensures
            match self.raw_lookup(TableType::History, spec_history_key(url_hash)) {
                None => r == Ok::<Option<HistoryEntry>, DbError>(None),
                Some(v) => match spec_parse_history(v) {
                    Some(hv) => match r {
                        Ok(Some(e)) => e@ == hv,
                        _ => false,
                    },
                    None => r == Err::<Option<HistoryEntry>, DbError>(DbError::Corrupt),
                },
            },
    {
        let key = history_key(url_hash);
        match self.get_raw(TableType::History, key.as_slice()) {
            None => Ok(None),
            Some(v) => match crate::records::decode_history(v.as_slice()) {
                Some(e) => Ok(Some(e)),
                None => Err(DbError::Corrupt),
            },
        }
    }

    /// Stores a cookie under its domain digest and name.
    pub fn insert_cookie(&mut self, entry: &CookieEntry, now_ms: u64) -> (r: Option<SstFile>)
        requires
            old(self).wf(),
            encode_utf8(entry.name@).len() + encode_utf8(entry.value@).len() + 64 <= usize::MAX,
            old(self).put_raw_pre(
                TableType::Cookies,
                spec_cookie_key(entry.domain_hash, entry.name@),
                spec_cookie_value(entry@),
            ),
        ensures
            BrowserDB::put_raw_post(
                *old(self),
                *final(self),
                TableType::Cookies,
                spec_cookie_key(entry.domain_hash, entry.name@),
                spec_cookie_value(entry@),
                now_ms,
                r,
            ),
    {
        let key = cookie_key(entry.domain_hash, entry.name.as_str());
        let value = encode_cookie(entry);
        self.put_raw(TableType::Cookies, key, value, now_ms)
    }

    /// Stores a cached response under its address digest.
    pub fn insert_cache(&mut self, entry: &CacheEntry, now_ms: u64) -> (r: Option<SstFile>)
        requires
            old(self).wf(),
            encode_utf8(entry.headers@).len() + entry.body@.len() + encode_utf8(entry.etag@).len()
                + 80 <= usize::MAX,
            old(self).put_raw_pre(
                TableType::Cache,
                spec_history_key(entry.url_hash),
                spec_cache_value(entry@),
            ),
        ensures
            BrowserDB::put_raw_post(
                *old(self),
                *final(self),
                TableType::Cache,
                spec_history_key(entry.url_hash),
                spec_cache_value(entry@),
                now_ms,
                r,
            ),
    {
        let key = history_key(entry.url_hash);
        let value = encode_cache(entry);
        self.put_raw(TableType::Cache, key, value, now_ms)
    }

    /// Stores a per-origin pair under its origin digest and name.
    pub fn insert_localstore(&mut self, entry: &LocalStoreEntry, now_ms: u64) -> (r: Option<
        SstFile,
    >)
        requires
            old(self).wf(),
            encode_utf8(entry.key@).len() + encode_utf8(entry.value@).len() + 56 <= usize::MAX,
            old(self).put_raw_pre(
                TableType::LocalStore,
                spec_localstore_key(entry.origin_hash, entry.key@),
                spec_localstore_value(entry@),
            ),
        ensures
            BrowserDB::put_raw_post(
                *old(self),
                *final(self),
                TableType::LocalStore,
                spec_localstore_key(entry.origin_hash, entry.key@),
                spec_localstore_value(entry@),
                now_ms,
                r,
            ),
    {
        let key = localstore_key(entry.origin_hash, entry.key.as_str());
        let value = encode_localstore(entry);
        self.put_raw(TableType::LocalStore, key, value, now_ms)
    }

    /// Stores raw bytes in the per-origin table; the back door the thin SQL
    /// veneer builds on.
    pub fn put_raw_localstore(&mut self, key: Vec<u8>, value: Vec<u8>, now_ms: u64) -> (r: Option<
        SstFile,
    >)
        requires
            old(self).wf(),
            old(self).put_raw_pre(TableType::LocalStore, key@, value@),
        ensures
            BrowserDB::put_raw_post(
                *old(self),
                *final(self),
                TableType::LocalStore,
                key@,
                value@,
                now_ms,
                r,
            ),
    {
        self.put_raw(TableType::LocalStore, key, value, now_ms)
    }

    /// The raw bytes the per-origin table holds for a raw key.
    pub fn get_raw_localstore(&self, key: &[u8]) -> (r: Option<Vec<u8>>)
        requires
            self.wf(),
        ensures
            match r {
                Some(v) => self.raw_lookup(TableType::LocalStore, key@) == Some(v@),
                None => self.raw_lookup(TableType::LocalStore, key@) is None,
            },
    {
        self.get_raw(TableType::LocalStore, key)
    }

    /// Stores a setting: the name's raw UTF-8 is the key, the value's raw
    /// UTF-8 the stored bytes.
    pub fn set_setting(&mut self, key: &str, value: &str, now_ms: u64) -> (r: Option<SstFile>)
        requires
            old(self).wf(),
            old(self).put_raw_pre(
                TableType::Settings,
                encode_utf8(key@),
                encode_utf8(value@),
            ),
        ensures
            BrowserDB::put_raw_post(
                *old(self),
                *final(self),
                TableType::Settings,
                encode_utf8(key@),
                encode_utf8(value@),
                now_ms,
                r,
            ),
    {
        let k = key.as_bytes();
        let v = value.as_bytes();
        let kv = crate::wire::read_bytes(k, 0, k.len());
        let vv = crate::wire::read_bytes(v, 0, v.len());
        proof {
            assert(kv@ =~= encode_utf8(key@));
            assert(vv@ =~= encode_utf8(value@));
        }
        self.put_raw(TableType::Settings, kv, vv, now_ms)
    }

    /// The setting stored under a name, decoded from UTF-8; stored bytes
    /// that are not UTF-8 are an error, absence is not.
    pub fn get_setting(&self, key: &str) -> (r: Result<Option<String>, DbError>)
        requires
            self.wf(),
        ensures
            match self.raw_lookup(TableType::Settings, encode_utf8(key@)) {
                None => r == Ok::<Option<String>, DbError>(None),
                Some(v) => if valid_utf8(v) {
                    match r {
                        Ok(Some(s)) => s@ == decode_utf8(v),
                        _ => false,
                    }
                } else {
                    r == Err::<Option<String>, DbError>(DbError::Corrupt)
                },
            },
    {
        let k = key.as_bytes();
        match self.get_raw(TableType::Settings, k) {
            None => Ok(None),
            Some(v) => match bytes_to_string(v) {
                Some(s) => Ok(Some(s)),
                None => Err(DbError::Corrupt),
            },
        }
    }

    /// Summary figures; the engine keeps no counters, so every figure reads
    /// zero.
    pub fn stats(&self) -> (r: DatabaseStats)
        ensures
            r.total_entries == 0,
            r.history_entries == 0,
            r.cookie_entries == 0,
            r.cache_entries == 0,
            r.memory_usage_mb == 0,
            r.disk_usage_mb == 0,
    {
        DatabaseStats {
            total_entries: 0,
            history_entries: 0,
            cookie_entries: 0,
            cache_entries: 0,
            memory_usage_mb: 0,
            disk_usage_mb: 0,
        }
    }

    /// Reports success without touching any table: no whole-database wipe is
    /// wired to the engine; callers clear state by switching modes or by
    /// removing the directory.
    pub fn wipe(&self) -> (r: Result<(), DbError>)
        ensures
            r is Ok,
    {
        Ok(())
    }
}

/// For every history record and every database state: after the facade
/// stores the record, looking its digest up yields exactly the stored
/// encoding — whichever backing is live and whether or not the write tipped
/// a buffer into a flush — and that encoding decodes back to the record.
pub proof fn lemma_history_insert_then_get(
    pre: BrowserDB,
    post: BrowserDB,
    entry: HistoryEntryView,
    now_ms: u64,
    r: Option<SstFile>,
)
    requires
        pre.wf(),
        vstd::utf8::encode_utf8(entry.title).len() <= usize::MAX,
        BrowserDB::put_raw_post(
            pre,
            post,
            TableType::History,
            spec_history_key(entry.url_hash),
            spec_history_value(entry),
            now_ms,
            r,
        ),
    ensures
        post.raw_lookup(TableType::History, spec_history_key(entry.url_hash)) == Some(
            spec_history_value(entry),
        ),
        spec_parse_history(spec_history_value(entry)) == Some(entry),
{
    lemma_history_round_trip(entry);
    let key = spec_history_key(entry.url_hash);
    let value = spec_history_value(entry);
    match (pre.switcher.current_mode, post.switcher.current_mode) {
        (CurrentMode::Persistent(pm0), CurrentMode::Persistent(pm1)) => {
            let t0 = lsm_of(pm0, TableType::History);
            let t1 = lsm_of(pm1, TableType::History);
            let e = KVEntryView {
                key,
                value,
                timestamp: now_ms,
                entry_type: crate::kinds::EntryType::Insert,
                deleted: false,
            };
            let b = crate::memtable::spec_put_seq(t0.memtable.view_seq(), e);
            assert(t0.wf());
            crate::lsm::lemma_put_then_get(
                t0.memtable.view_seq(),
                t0.levels_model(),
                key,
                value,
                now_ms,
            );
            assert(t1.spec_lookup(key) == Some(e));
        },
        (CurrentMode::Ultra(um0), CurrentMode::Ultra(um1)) => {
            assert(ultra_of(um1, TableType::History).spec_get(key) == Some(value));
        },
        _ => {},
    }
}

} // verus!
