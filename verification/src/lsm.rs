use vstd::prelude::*;

use crate::kinds::{EntryType, TableType};
use crate::memtable::{
    lemma_put_seq_len, lemma_put_seq_lookup, lemma_put_seq_size, seq_lookup, spec_put_seq,
    total_size, views_of, KVEntry, KVEntryView, MemTable,
};
use crate::names::{parse_sst_file_name, spec_parse_sst_name, spec_sst_file_name};
use crate::sstable::{concat_frames, frame_of, live_entries, spec_open_scan, SSTable};

verus! {

/// A newly written sorted file, handed out for the caller to persist: its
/// on-disk name and its raw bytes.
pub struct SstFile {
    pub name: Vec<u8>,
    pub data: Vec<u8>,
}

/// How many level slots each table owns.
pub const LEVEL_COUNT: usize = 10;

/// The record found scanning one level's files, newest last file first.
pub open spec fn level_lookup(ssts: Seq<Seq<KVEntryView>>, key: Seq<u8>) -> Option<KVEntryView>
    decreases ssts.len(),
{
    if ssts.len() == 0 {
        None
    } else {
        match seq_lookup(ssts.last(), key) {
            Some(e) => Some(e),
            None => level_lookup(ssts.drop_last(), key),
        }
    }
}

/// The record found scanning the levels shallowest first.
pub open spec fn levels_lookup(levels: Seq<Seq<Seq<KVEntryView>>>, key: Seq<u8>) -> Option<
    KVEntryView,
>
    decreases levels.len(),
{
    if levels.len() == 0 {
        None
    } else {
        match level_lookup(levels[0], key) {
            Some(e) => Some(e),
            None => levels_lookup(levels.skip(1), key),
        }
    }
}

/// The record a buffer and a set of levels hold for `key`: the buffer
/// first, then the levels.
pub open spec fn state_lookup(
    buffer: Seq<KVEntryView>,
    levels: Seq<Seq<Seq<KVEntryView>>>,
    key: Seq<u8>,
) -> Option<KVEntryView> {
    match seq_lookup(buffer, key) {
        Some(e) => Some(e),
        None => levels_lookup(levels, key),
    }
}

/// One table's engine: the in-memory buffer and ten level slots of sorted
/// files. Writes land in the buffer; reaching the threshold turns the buffer
/// into a new level-zero file whose bytes the caller persists.
pub struct LSMTree {
    pub memtable: MemTable,
    pub levels: Vec<Vec<SSTable>>,
    pub table_type: TableType,
}

impl LSMTree {
    /// The records of every file, level by level, oldest file first.
    pub open spec fn levels_model(self) -> Seq<Seq<Seq<KVEntryView>>> {
        self.levels@.map_values(|lv: Vec<SSTable>| lv@.map_values(|s: SSTable| s.model()))
    }

    /// The engine's internal shape: a well-formed buffer for this table and
    /// ten slots of well-formed files.
    pub open spec fn wf(self) -> bool {
        &&& self.memtable.wf()
        &&& self.memtable.table_type == self.table_type
        &&& self.levels@.len() == LEVEL_COUNT
        &&& forall|l: int, i: int|
            0 <= l < self.levels@.len() && 0 <= i < self.levels@[l]@.len() ==> (
            #[trigger] self.levels@[l]@[i]).wf()
    }

    /// The record the engine holds for `key`: the buffer first, then the
    /// levels shallowest first, each level's files newest first. Tombstones
    /// are records too; callers read them as absence.
    pub open spec fn spec_lookup(self, key: Seq<u8>) -> Option<KVEntryView> {
        state_lookup(self.memtable.view_seq(), self.levels_model(), key)
    }

    /// An empty engine for one table with the given buffer threshold.
    pub fn new(table_type: TableType, max_memtable_size: usize) -> (r: LSMTree)
        ensures
            r.wf(),
            r.table_type == table_type,
            r.memtable.view_seq() == Seq::<KVEntryView>::empty(),
            r.memtable.max_size == max_memtable_size,
            forall|l: int|
                0 <= l < r.levels_model().len() ==> (#[trigger] r.levels_model()[l]).len() == 0,
    {
        let mut levels: Vec<Vec<SSTable>> = Vec::new();
        let mut i: usize = 0;
        while i < LEVEL_COUNT
            invariant
                i <= LEVEL_COUNT,
                levels@.len() == i,
                forall|l: int| 0 <= l < i ==> (#[trigger] levels@[l])@.len() == 0,
            decreases LEVEL_COUNT - i,
        {
            levels.push(Vec::new());
            i = i + 1;
        }
        let r = LSMTree {
            memtable: MemTable::new(max_memtable_size, table_type),
            levels,
            table_type,
        };
        r
    }

    /// Stores an insert for `key` in the buffer with the caller's wall-clock
    /// time; when the buffer reaches its threshold it is flushed into a new
    /// level-zero file, returned for the caller to persist.
    pub fn put(&mut self, key: Vec<u8>, value: Vec<u8>, now_ms: u64) -> (r: Option<SstFile>)
        requires
            old(self).wf(),
            total_size(old(self).memtable.view_seq()) + key@.len() + value@.len() + 9
                <= usize::MAX,
            concat_frames(live_entries(old(self).memtable.view_seq())).len() + key@.len()
                + value@.len() + 33 <= usize::MAX,
            old(self).memtable.view_seq().len() + 1 < 0x1_0000_0000,
        ensures
            final(self).wf(),
            final(self).table_type == old(self).table_type,
            ({
                let e = KVEntryView {
                    key: key@,
                    value: value@,
                    timestamp: now_ms,
                    entry_type: EntryType::Insert,
                    deleted: false,
                };
                let b = spec_put_seq(old(self).memtable.view_seq(), e);
                if total_size(b) >= old(self).memtable.max_size {
                    &&& final(self).memtable.view_seq() == Seq::<KVEntryView>::empty()
                    &&& final(self).levels_model() == old(self).levels_model().update(
                        0,
                        old(self).levels_model()[0].push(live_entries(b)),
                    )
                    &&& match r {
                        Some(f) => f.name@ == spec_sst_file_name(
                            old(self).table_type,
                            0,
                            now_ms,
                            b.len() as u64,
                        ) && f.data@ == concat_frames(live_entries(b)),
                        None => false,
                    }
                } else {
                    &&& final(self).memtable.view_seq() == b
                    &&& final(self).levels_model() == old(self).levels_model()
                    &&& r is None
                }
            }),
            final(self).memtable.max_size == old(self).memtable.max_size,
    {
        let ghost e = KVEntryView {
            key: key@,
            value: value@,
            timestamp: now_ms,
            entry_type: EntryType::Insert,
            deleted: false,
        };
        proof {
            lemma_put_seq_size(old(self).memtable.view_seq(), e);
            lemma_put_seq_len(old(self).memtable.view_seq(), e);
            lemma_concat_put_bound(old(self).memtable.view_seq(), e);
        }
        self.memtable.put(key, value, EntryType::Insert, now_ms);
        if self.memtable.should_flush() {
            let r = self.flush(now_ms);
            proof {
                assert(r is Some);
            }
            r
        } else {
            None
        }
    }

    /// The record the engine holds for `key`, as a copy, or nothing.
    pub fn get(&self, key: &[u8]) -> (r: Option<KVEntry>)
        requires
            self.wf(),
        ensures
            match r {
                Some(e) => self.spec_lookup(key@) == Some(e@),
                None => self.spec_lookup(key@) is None,
            },
    {
        match self.memtable.get(key) {
            Some(e) => {
                return Some(e);
            },
            None => {},
        }
        let nlevels = self.levels.len();
        proof {
            assert(self.levels_model().skip(0) =~= self.levels_model());
        }
        let mut l: usize = 0;
        while l < nlevels
            invariant
                self.wf(),
                l <= nlevels,
                nlevels == self.levels@.len(),
                self.memtable.spec_get(key@) is None,
                levels_lookup(self.levels_model().skip(l as int), key@) == levels_lookup(
                    self.levels_model(),
                    key@,
                ),
            decreases nlevels - l,
        {
            let level = &self.levels[l];
            let ghost lvlmodel = self.levels_model()[l as int];
            let mut idx: usize = level.len();
            proof {
                assert(lvlmodel.subrange(0, idx as int) =~= lvlmodel);
            }
            while idx > 0
                invariant
                    self.wf(),
                    l < nlevels,
                    nlevels == self.levels@.len(),
                    level == &self.levels@[l as int],
                    idx <= level@.len(),
                    lvlmodel == self.levels_model()[l as int],
                    lvlmodel.len() == level@.len(),
                    level_lookup(lvlmodel.subrange(0, idx as int), key@) == level_lookup(
                        lvlmodel,
                        key@,
                    ),
                    self.memtable.spec_get(key@) is None,
                    levels_lookup(self.levels_model().skip(l as int), key@) == levels_lookup(
                        self.levels_model(),
                        key@,
                    ),
                decreases idx,
            {
                idx = idx - 1;
                let sst = &level[idx];
                proof {
                    assert(self.levels@[l as int]@[idx as int].wf());
                    assert(lvlmodel.subrange(0, idx as int + 1).last() == sst.model());
                    assert(lvlmodel.subrange(0, idx as int + 1).drop_last() =~= lvlmodel.subrange(
                        0,
                        idx as int,
                    ));
                }
                match sst.get(key) {
                    Some(e) => {
                        proof {
                            assert(level_lookup(lvlmodel.subrange(0, idx as int + 1), key@)
                                == Some(e@));
                            assert(level_lookup(lvlmodel, key@) == Some(e@));
                            assert(self.levels_model().skip(l as int)[0] == lvlmodel);
                            assert(levels_lookup(self.levels_model().skip(l as int), key@)
                                == Some(e@));
                        }
                        return Some(e);
                    },
                    None => {},
                }
            }
            proof {
                assert(lvlmodel.subrange(0, 0) =~= Seq::<Seq<KVEntryView>>::empty());
                assert(level_lookup(lvlmodel, key@) is None);
                assert(self.levels_model().skip(l as int)[0] == lvlmodel);
                assert(self.levels_model().skip(l as int).skip(1) =~= self.levels_model().skip(
                    l as int + 1,
                ));
            }
            l = l + 1;
        }
        proof {
            assert(self.levels_model().skip(nlevels as int)
                =~= Seq::<Seq<Seq<KVEntryView>>>::empty());
        }
        None
    }

    /// Empties a nonempty buffer into a new level-zero sorted file, appended
    /// to the level and returned for the caller to persist; an empty buffer
    /// is left alone.
    pub fn flush(&mut self, now_ms: u64) -> (r: Option<SstFile>)
        requires
            old(self).wf(),
            concat_frames(live_entries(old(self).memtable.view_seq())).len() <= usize::MAX,
            old(self).memtable.view_seq().len() < 0x1_0000_0000,
        ensures
            final(self).wf(),
            final(self).table_type == old(self).table_type,
            final(self).memtable.max_size == old(self).memtable.max_size,
            old(self).memtable.view_seq().len() == 0 ==> *final(self) == *old(self) && r is None,
            old(self).memtable.view_seq().len() > 0 ==> {
                let b = old(self).memtable.view_seq();
                &&& final(self).memtable.view_seq() == Seq::<KVEntryView>::empty()
                &&& final(self).levels_model() == old(self).levels_model().update(
                    0,
                    old(self).levels_model()[0].push(live_entries(b)),
                )
                &&& match r {
                    Some(f) => f.name@ == spec_sst_file_name(
                        old(self).table_type,
                        0,
                        now_ms,
                        b.len() as u64,
                    ) && f.data@ == concat_frames(live_entries(b)),
                    None => false,
                }
            },
    {
        if self.memtable.entries.len() == 0 {
            return None;
        }
        let ghost b = self.memtable.view_seq();
        let n = self.memtable.entries.len();
        let mut snapshot: Vec<KVEntry> = Vec::new();
        let mut i: usize = 0;
        while i < n
            invariant
                i <= n,
                n == self.memtable.entries@.len(),
                self == old(self),
                snapshot@.len() == i,
                forall|j: int| 0 <= j < i ==> (#[trigger] snapshot@[j])@ == b[j],
                b == self.memtable.view_seq(),
            decreases n - i,
        {
            snapshot.push(self.memtable.entries[i].duplicate());
            i = i + 1;
        }
        proof {
            assert(views_of(snapshot@) =~~= b);
        }
        self.memtable.clear();
        let sst = SSTable::create(0, &snapshot, self.table_type, now_ms);
        let name = crate::wire::read_bytes(sst.file_name.as_slice(), 0, sst.file_name.len());
        let data = crate::wire::read_bytes(sst.data.as_slice(), 0, sst.data.len());
        proof {
            assert(name@ =~= sst.file_name@);
            assert(data@ =~= sst.data@);
        }
        let ghost oldlevels = self.levels@;
        let mut level0 = self.levels.remove(0);
        level0.push(sst);
        self.levels.insert(0, level0);
        proof {
            assert(self.levels@ =~= oldlevels.update(0, self.levels@[0int]));
            assert(self.levels_model() =~~= old(self).levels_model().update(
                0,
                old(self).levels_model()[0].push(live_entries(b)),
            ));
        }
        Some(SstFile { name, data })
    }

    /// Takes one file found on disk back into the engine: the name must
    /// carry this table's prefix, a level below ten and the sorted-file
    /// suffix, else the file is ignored. The file's readable prefix is
    /// scanned back into a sorted file appended to its level.
    pub fn recover(&mut self, name: &[u8], data: Vec<u8>) -> (r: bool)
        requires
            old(self).wf(),
        ensures
            final(self).wf(),
            final(self).table_type == old(self).table_type,
            final(self).memtable == old(self).memtable,
            match spec_parse_sst_name(name@, old(self).table_type) {
                Some((level, ts)) => r == true && final(self).levels_model() == old(
                    self,
                ).levels_model().update(
                    level as int,
                    old(self).levels_model()[level as int].push(
                        spec_open_scan(data@, None::<Seq<u8>>),
                    ),
                ),
                None => r == false && *final(self) == *old(self),
            },
    {
        let parsed = parse_sst_file_name(name, self.table_type);
        match parsed {
            None => false,
            Some((level, _ts)) => {
                let owned_name = crate::wire::read_bytes(name, 0, name.len());
                proof {
                    assert(owned_name@ =~= name@);
                }
                let sst = SSTable::open(level, owned_name, data);
                let ghost oldlevels = self.levels@;
                let mut slot = self.levels.remove(level as usize);
                slot.push(sst);
                self.levels.insert(level as usize, slot);
                proof {
                    let li = level as int;
                    assert(self.levels@ =~= oldlevels.update(li, self.levels@[li]));
                    assert(self.levels_model() =~~= old(self).levels_model().update(
                        level as int,
                        old(self).levels_model()[level as int].push(
                            spec_open_scan(data@, None::<Seq<u8>>),
                        ),
                    ));
                }
                true
            },
        }
    }
}

/// Storing a record grows the laid-out live frames by at most one frame of
/// bounded size.
pub proof fn lemma_concat_put_bound(s: Seq<KVEntryView>, e: KVEntryView)
    ensures
        concat_frames(live_entries(spec_put_seq(s, e))).len() <= concat_frames(live_entries(s)).len()
            + e.key.len() + e.value.len() + 33,
    decreases s.len(),
{
    crate::varint::lemma_varint_len(e.key.len() as u64);
    crate::varint::lemma_varint_len(e.value.len() as u64);
    vstd::bytes::lemma_auto_spec_u64_to_from_le_bytes();
    vstd::bytes::lemma_auto_spec_u32_to_from_le_bytes();
    let t = spec_put_seq(s, e);
    if s.len() == 0 {
        assert(t =~~= seq![e]);
        assert(t.skip(1) =~= Seq::<KVEntryView>::empty());
        assert(live_entries(t.skip(1)) == Seq::<KVEntryView>::empty());
        if !e.deleted {
            assert(live_entries(t) == seq![t[0]] + live_entries(t.skip(1)));
            assert(live_entries(t) =~~= seq![e]);
            assert(live_entries(t).skip(1) =~= Seq::<KVEntryView>::empty());
            assert(concat_frames(live_entries(t)) == frame_of(e) + concat_frames(
                live_entries(t).skip(1),
            ));
        } else {
            assert(live_entries(t) =~~= Seq::<KVEntryView>::empty());
        }
    } else if crate::order::lex_lt(e.key, s[0].key) {
        assert(t == seq![e] + s);
        assert(t[0] == e);
        assert(t.skip(1) =~= s);
        if !e.deleted {
            assert(live_entries(t) == seq![e] + live_entries(s));
            assert(concat_frames(live_entries(t)) == frame_of(e) + concat_frames(
                live_entries(s),
            )) by {
                assert(live_entries(t)[0] == e);
                assert(live_entries(t).skip(1) =~= live_entries(s));
            }
        } else {
            assert(live_entries(t) == live_entries(s));
        }
    } else if e.key == s[0].key {
        assert(t == seq![e] + s.skip(1));
        assert(t[0] == e);
        assert(t.skip(1) =~= s.skip(1));
        lemma_concat_live_prefix(s);
        if !e.deleted {
            assert(live_entries(t) == seq![e] + live_entries(s.skip(1)));
            assert(concat_frames(live_entries(t)) == frame_of(e) + concat_frames(
                live_entries(s.skip(1)),
            )) by {
                assert(live_entries(t)[0] == e);
                assert(live_entries(t).skip(1) =~= live_entries(s.skip(1)));
            }
        } else {
            assert(live_entries(t) == live_entries(s.skip(1)));
        }
    } else {
        assert(t == seq![s[0]] + spec_put_seq(s.skip(1), e));
        assert(t[0] == s[0]);
        assert(t.skip(1) =~= spec_put_seq(s.skip(1), e));
        lemma_concat_put_bound(s.skip(1), e);
        if !s[0].deleted {
            assert(live_entries(t) == seq![s[0]] + live_entries(spec_put_seq(s.skip(1), e)));
            assert(concat_frames(live_entries(t)) == frame_of(s[0]) + concat_frames(
                live_entries(spec_put_seq(s.skip(1), e)),
            )) by {
                assert(live_entries(t)[0] == s[0]);
                assert(live_entries(t).skip(1) =~= live_entries(spec_put_seq(s.skip(1), e)));
            }
            assert(concat_frames(live_entries(s)) == frame_of(s[0]) + concat_frames(
                live_entries(s.skip(1)),
            )) by {
                assert(live_entries(s)[0] == s[0]);
                assert(live_entries(s).skip(1) =~= live_entries(s.skip(1)));
            }
        } else {
            assert(live_entries(t) == live_entries(spec_put_seq(s.skip(1), e)));
            assert(live_entries(s) == live_entries(s.skip(1)));
        }
    }
}

/// Dropping a run's first record never grows its laid-out live frames.
proof fn lemma_concat_live_prefix(s: Seq<KVEntryView>)
    requires
        s.len() > 0,
    ensures
        concat_frames(live_entries(s.skip(1))).len() <= concat_frames(live_entries(s)).len(),
{
    if s[0].deleted {
        assert(live_entries(s) == live_entries(s.skip(1)));
    } else {
        assert(live_entries(s) == seq![s[0]] + live_entries(s.skip(1)));
        assert(concat_frames(live_entries(s)) == frame_of(s[0]) + concat_frames(
            live_entries(s.skip(1)),
        )) by {
            assert(live_entries(s)[0] == s[0]);
            assert(live_entries(s).skip(1) =~= live_entries(s.skip(1)));
        }
    }
}

/// Looking a key up among the live records finds what the full run holds
/// for it, as long as that record is not a tombstone.
proof fn lemma_live_lookup_some(s: Seq<KVEntryView>, k: Seq<u8>)
    requires
        match seq_lookup(s, k) {
            Some(e) => !e.deleted,
            None => false,
        },
    ensures
        seq_lookup(live_entries(s), k) == seq_lookup(s, k),
    decreases s.len(),
{
    if s[0].key == k {
        assert(!s[0].deleted);
        assert(live_entries(s) == seq![s[0]] + live_entries(s.skip(1)));
        assert(live_entries(s)[0] == s[0]);
    } else {
        lemma_live_lookup_some(s.skip(1), k);
        if s[0].deleted {
            assert(live_entries(s) == live_entries(s.skip(1)));
        } else {
            assert(live_entries(s) == seq![s[0]] + live_entries(s.skip(1)));
            assert(live_entries(s)[0] == s[0]);
            assert(live_entries(s).skip(1) =~= live_entries(s.skip(1)));
        }
    }
}

/// For every key and value: after the engine stores the pair, looking the
/// key up yields that record — both when the write only grew the buffer and
/// when it tipped the buffer into a new level-zero file.
pub proof fn lemma_put_then_get(
    buffer: Seq<KVEntryView>,
    levels: Seq<Seq<Seq<KVEntryView>>>,
    key: Seq<u8>,
    value: Seq<u8>,
    now_ms: u64,
)
    requires
        levels.len() > 0,
    ensures
        ({
            let e = KVEntryView {
                key,
                value,
                timestamp: now_ms,
                entry_type: EntryType::Insert,
                deleted: false,
            };
            let b = spec_put_seq(buffer, e);
            let flushed = levels.update(0, levels[0].push(live_entries(b)));
            &&& state_lookup(b, levels, key) == Some(e)
            &&& state_lookup(Seq::<KVEntryView>::empty(), flushed, key) == Some(e)
        }),
{
    let e = KVEntryView {
        key,
        value,
        timestamp: now_ms,
        entry_type: EntryType::Insert,
        deleted: false,
    };
    let b = spec_put_seq(buffer, e);
    lemma_put_seq_lookup(buffer, e, key);
    lemma_live_lookup_some(b, key);
    let flushed = levels.update(0, levels[0].push(live_entries(b)));
    let lvl0 = flushed[0];
    assert(lvl0.last() == live_entries(b));
    assert(seq_lookup(live_entries(b), key) == Some(e));
    assert(level_lookup(lvl0, key) == Some(e));
    assert(levels_lookup(flushed, key) == Some(e));
}

/// A write for one key leaves every other key's lookup unchanged, in both
/// post-states, as long as the buffer holds no tombstones — which the
/// engine's own writes never produce. With the put-then-get law this gives
/// the full reading of a stored value: later writes of other keys cannot
/// disturb it.
pub proof fn lemma_put_preserves_others(
    buffer: Seq<KVEntryView>,
    levels: Seq<Seq<Seq<KVEntryView>>>,
    key: Seq<u8>,
    value: Seq<u8>,
    now_ms: u64,
    k2: Seq<u8>,
)
    requires
        levels.len() > 0,
        forall|i: int| 0 <= i < buffer.len() ==> !(#[trigger] buffer[i]).deleted,
        k2 != key,
    ensures
        ({
            let e = KVEntryView {
                key,
                value,
                timestamp: now_ms,
                entry_type: EntryType::Insert,
                deleted: false,
            };
            let b = spec_put_seq(buffer, e);
            let flushed = levels.update(0, levels[0].push(live_entries(b)));
            &&& state_lookup(b, levels, k2) == state_lookup(buffer, levels, k2)
            &&& state_lookup(Seq::<KVEntryView>::empty(), flushed, k2) == state_lookup(
                buffer,
                levels,
                k2,
            )
        }),
{
    let e = KVEntryView {
        key,
        value,
        timestamp: now_ms,
        entry_type: EntryType::Insert,
        deleted: false,
    };
    let b = spec_put_seq(buffer, e);
    lemma_put_seq_lookup(buffer, e, k2);
    crate::memtable::lemma_put_seq_all_live(buffer, e);
    crate::sstable::lemma_live_id(b);
    let flushed = levels.update(0, levels[0].push(live_entries(b)));
    let lvl0 = flushed[0];
    assert(lvl0.last() == b);
    assert(lvl0.drop_last() =~= levels[0]);
    assert(flushed.skip(1) =~= levels.skip(1));
    match seq_lookup(buffer, k2) {
        Some(e2) => {
            assert(seq_lookup(b, k2) == Some(e2));
            assert(level_lookup(lvl0, k2) == Some(e2));
            assert(levels_lookup(flushed, k2) == Some(e2));
        },
        None => {
            assert(seq_lookup(b, k2) is None);
            assert(level_lookup(lvl0, k2) == level_lookup(levels[0], k2));
            assert(levels_lookup(flushed, k2) == levels_lookup(levels, k2));
        },
    }
}

/// A newer write shadows an older flushed one: a key written once, flushed,
/// then written again reads back the second value, whether or not the second
/// write has been flushed in turn.
pub proof fn lemma_read_priority(
    levels: Seq<Seq<Seq<KVEntryView>>>,
    key: Seq<u8>,
    v1: Seq<u8>,
    v2: Seq<u8>,
    t1: u64,
    t2: u64,
)
    requires
        levels.len() > 0,
    ensures
        ({
            let e2 = KVEntryView {
                key,
                value: v2,
                timestamp: t2,
                entry_type: EntryType::Insert,
                deleted: false,
            };
            let b1 = spec_put_seq(Seq::<KVEntryView>::empty(), KVEntryView {
                key,
                value: v1,
                timestamp: t1,
                entry_type: EntryType::Insert,
                deleted: false,
            });
            let after_flush = levels.update(0, levels[0].push(live_entries(b1)));
            let b2 = spec_put_seq(Seq::<KVEntryView>::empty(), e2);
            let after_second_flush = after_flush.update(
                0,
                after_flush[0].push(live_entries(b2)),
            );
            &&& state_lookup(b2, after_flush, key) == Some(e2)
            &&& state_lookup(Seq::<KVEntryView>::empty(), after_second_flush, key) == Some(e2)
        }),
{
    let b1 = spec_put_seq(Seq::<KVEntryView>::empty(), KVEntryView {
        key,
        value: v1,
        timestamp: t1,
        entry_type: EntryType::Insert,
        deleted: false,
    });
    let after_flush = levels.update(0, levels[0].push(live_entries(b1)));
    lemma_put_then_get(Seq::<KVEntryView>::empty(), after_flush, key, v2, t2);
}

} // verus!
