use vstd::prelude::*;

use crate::kinds::TableType;
use crate::lsm::LSMTree;
use crate::memtable::{total_size, KVEntryView, MemTable};

verus! {

/// Which backing the dispatcher runs the tables on.
#[derive(Clone, Copy, Debug, PartialEq, Eq, Structural)]
pub enum DatabaseMode {
    /// Disk-backed engines with crash recovery.
    Persistent,
    /// Plain in-memory tables, nothing persisted.
    Ultra,
}

/// The dispatcher's knobs: the memory budget shared by the five tables and
/// two feature switches reserved in the format.
#[derive(Clone, Copy, Debug, PartialEq, Eq, Structural)]
pub struct ModeConfig {
    pub max_memory: usize,
    pub enable_compression: bool,
    pub enable_heat_tracking: bool,
}

/// A plain in-memory byte map for the no-persistence mode: an ordered
/// buffer that is never flushed.
pub struct UltraTable {
    pub data: MemTable,
}

impl UltraTable {
    /// The table's internal shape.
    pub open spec fn wf(self) -> bool {
        self.data.wf()
    }

    /// The value stored for `key`, if any.
    pub open spec fn spec_get(self, key: Seq<u8>) -> Option<Seq<u8>> {
        match self.data.spec_get(key) {
            Some(e) => Some(e.value),
            None => None,
        }
    }

    /// An empty in-memory table; the buffer threshold is irrelevant here, as
    /// nothing ever flushes it.
    pub fn new(table_type: TableType) -> (r: UltraTable)
        ensures
            r.wf(),
            r.data.view_seq() == Seq::<KVEntryView>::empty(),
    {
        UltraTable { data: MemTable::new(usize::MAX, table_type) }
    }

    /// Stores `value` for `key`, replacing any prior value.
    pub fn put(&mut self, key: Vec<u8>, value: Vec<u8>)
        requires
            old(self).wf(),
            total_size(old(self).data.view_seq()) + key@.len() + value@.len() + 9 <= usize::MAX,
        ensures
            final(self).wf(),
            final(self).spec_get(key@) == Some(value@),
            forall|k: Seq<u8>|
                k != key@ ==> final(self).spec_get(k) == old(self).spec_get(k),
    {
        let ghost e = KVEntryView {
            key: key@,
            value: value@,
            timestamp: 0u64,
            entry_type: crate::kinds::EntryType::Insert,
            deleted: false,
        };
        let ghost s0 = self.data.view_seq();
        self.data.put(key, value, crate::kinds::EntryType::Insert, 0);
        proof {
            assert forall|k: Seq<u8>| true implies crate::memtable::seq_lookup(
                self.data.view_seq(),
                k,
            ) == if k == e.key {
                Some(e)
            } else {
                crate::memtable::seq_lookup(s0, k)
            } by {
                crate::memtable::lemma_put_seq_lookup(s0, e, k);
            }
        }
    }

    /// The value stored for `key`, as a copy, or nothing.
    pub fn get(&self, key: &[u8]) -> (r: Option<Vec<u8>>)
        requires
            self.wf(),
        ensures
            match r {
                Some(v) => self.spec_get(key@) == Some(v@),
                None => self.spec_get(key@) is None,
            },
    {
        match self.data.get(key) {
            Some(e) => Some(e.value),
            None => None,
        }
    }
}

/// The five disk-backed engines, one per table, sharing the memory budget.
pub struct PersistentMode {
    pub history: LSMTree,
    pub cookies: LSMTree,
    pub cache: LSMTree,
    pub localstore: LSMTree,
    pub settings: LSMTree,
}

impl PersistentMode {
    /// Every engine well formed and bound to its own table.
    pub open spec fn wf(self) -> bool {
        &&& self.history.wf() && self.history.table_type == TableType::History
        &&& self.cookies.wf() && self.cookies.table_type == TableType::Cookies
        &&& self.cache.wf() && self.cache.table_type == TableType::Cache
        &&& self.localstore.wf() && self.localstore.table_type == TableType::LocalStore
        &&& self.settings.wf() && self.settings.table_type == TableType::Settings
    }

    /// One engine freshly constructed: an empty buffer with the given
    /// threshold and every level slot empty.
    pub open spec fn engine_fresh(t: LSMTree, threshold: int) -> bool {
        &&& t.memtable.view_seq() == Seq::<KVEntryView>::empty()
        &&& t.memtable.max_size == threshold
        &&& t.levels_model().len() == crate::lsm::LEVEL_COUNT
        &&& forall|l: int|
            0 <= l < t.levels_model().len() ==> (#[trigger] t.levels_model()[l]).len() == 0
    }

    /// All five engines freshly constructed under `config`: empty, with a
    /// fifth of the memory budget each as buffer threshold.
    pub open spec fn is_fresh(self, config: ModeConfig) -> bool {
        &&& self.wf()
        &&& PersistentMode::engine_fresh(self.history, config.max_memory as int / 5)
        &&& PersistentMode::engine_fresh(self.cookies, config.max_memory as int / 5)
        &&& PersistentMode::engine_fresh(self.cache, config.max_memory as int / 5)
        &&& PersistentMode::engine_fresh(self.localstore, config.max_memory as int / 5)
        &&& PersistentMode::engine_fresh(self.settings, config.max_memory as int / 5)
    }

    /// Five empty engines, each given a fifth of the memory budget as its
    /// buffer threshold.
    pub fn new(config: &ModeConfig) -> (r: PersistentMode)
        ensures
            r.is_fresh(*config),
    {
        let max_mem = config.max_memory / 5;
        PersistentMode {
            history: LSMTree::new(TableType::History, max_mem),
            cookies: LSMTree::new(TableType::Cookies, max_mem),
            cache: LSMTree::new(TableType::Cache, max_mem),
            localstore: LSMTree::new(TableType::LocalStore, max_mem),
            settings: LSMTree::new(TableType::Settings, max_mem),
        }
    }
}

/// The five plain in-memory tables of the no-persistence mode.
pub struct UltraMode {
    pub history: UltraTable,
    pub cookies: UltraTable,
    pub cache: UltraTable,
    pub localstore: UltraTable,
    pub settings: UltraTable,
}

impl UltraMode {
    /// Every table well formed.
    pub open spec fn wf(self) -> bool {
        &&& self.history.wf()
        &&& self.cookies.wf()
        &&& self.cache.wf()
        &&& self.localstore.wf()
        &&& self.settings.wf()
    }

    /// All five in-memory tables freshly constructed: well formed and empty.
    pub open spec fn is_fresh(self) -> bool {
        &&& self.wf()
        &&& self.history.data.view_seq() == Seq::<KVEntryView>::empty()
        &&& self.cookies.data.view_seq() == Seq::<KVEntryView>::empty()
        &&& self.cache.data.view_seq() == Seq::<KVEntryView>::empty()
        &&& self.localstore.data.view_seq() == Seq::<KVEntryView>::empty()
        &&& self.settings.data.view_seq() == Seq::<KVEntryView>::empty()
    }

    /// Five empty in-memory tables.
    pub fn new() -> (r: UltraMode)
        ensures
            r.is_fresh(),
    {
        UltraMode {
            history: UltraTable::new(TableType::History),
            cookies: UltraTable::new(TableType::Cookies),
            cache: UltraTable::new(TableType::Cache),
            localstore: UltraTable::new(TableType::LocalStore),
            settings: UltraTable::new(TableType::Settings),
        }
    }
}

/// Whichever backing is currently live.
pub enum CurrentMode {
    Persistent(PersistentMode),
    Ultra(UltraMode),
}

impl CurrentMode {
    /// The live backing's internal shape.
    pub open spec fn wf(self) -> bool {
        match self {
            CurrentMode::Persistent(pm) => pm.wf(),
            CurrentMode::Ultra(um) => um.wf(),
        }
    }

    /// A backing freshly constructed in `mode` under `config`: the matching
    /// variant, with every one of its five tables empty.
    pub open spec fn is_fresh(self, mode: DatabaseMode, config: ModeConfig) -> bool {
        match self {
            CurrentMode::Persistent(pm) => mode == DatabaseMode::Persistent && pm.is_fresh(
                config,
            ),
            CurrentMode::Ultra(um) => mode == DatabaseMode::Ultra && um.is_fresh(),
        }
    }
}

/// Owns the live backing and swaps it wholesale on a mode switch; the prior
/// in-memory state is discarded, as migration is out of the engine's scope.
pub struct ModeSwitcher {
    pub current_mode: CurrentMode,
    pub config: ModeConfig,
}

impl ModeSwitcher {
    /// The live backing is well formed.
    pub open spec fn wf(self) -> bool {
        self.current_mode.wf()
    }

    /// A dispatcher opened in the given mode with fresh, empty tables.
    pub fn new(mode: DatabaseMode, config: ModeConfig) -> (r: ModeSwitcher)
        ensures
            r.wf(),
            r.config == config,
            r.current_mode.is_fresh(mode, config),
    {
        let current = match mode {
            DatabaseMode::Persistent => CurrentMode::Persistent(PersistentMode::new(&config)),
            DatabaseMode::Ultra => CurrentMode::Ultra(UltraMode::new()),
        };
        ModeSwitcher { current_mode: current, config }
    }

    /// Replaces the live backing with a wholly fresh one in the requested
    /// mode — all five tables empty — discarding the prior in-memory state.
    pub fn switch_mode(&mut self, new_mode: DatabaseMode)
        ensures
            final(self).wf(),
            final(self).config == old(self).config,
            final(self).current_mode.is_fresh(new_mode, old(self).config),
    {
        let current = match new_mode {
            DatabaseMode::Persistent => CurrentMode::Persistent(
                PersistentMode::new(&self.config),
            ),
            DatabaseMode::Ultra => CurrentMode::Ultra(UltraMode::new()),
        };
        self.current_mode = current;
    }
}

} // verus!
