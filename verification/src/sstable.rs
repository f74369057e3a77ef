use vstd::prelude::*;

use crate::bloom::{covers, lemma_covers_monotone, BloomFilter};
use crate::codec::{
    frame_crc_valid, lemma_entry_round_trip, lemma_parse_entry_field_lens, lemma_parse_entry_len,
    spec_entry_frame, spec_parse_entry, BDBLogEntry, EntryParse, LogEntryView,
};
use crate::kinds::{EntryType, TableType};
use crate::memtable::{
    lemma_seq_lookup_at, lemma_seq_lookup_none, seq_lookup, sorted_by_key, views_of, KVEntry,
    KVEntryView,
};
use crate::names::{spec_sst_file_name, sst_file_name};
use crate::order::{bytes_cmp, lemma_lex_trichotomy, lex_lt, BytesOrder};

verus! {

/// The frame bytes a record occupies on disk.
pub open spec fn frame_of(e: KVEntryView) -> Seq<u8> {
    spec_entry_frame(e.entry_type, e.key, e.value, e.timestamp)
}

/// The record a parsed frame denotes: its tombstone flag derives from the
/// operation kind.
pub open spec fn kv_of(v: LogEntryView) -> KVEntryView {
    KVEntryView {
        key: v.key,
        value: v.value,
        timestamp: v.timestamp,
        entry_type: v.entry_type,
        deleted: v.entry_type == EntryType::Delete,
    }
}

/// The records of `s` that are not tombstones, in order.
pub open spec fn live_entries(s: Seq<KVEntryView>) -> Seq<KVEntryView>
    decreases s.len(),
{
    if s.len() == 0 {
        Seq::empty()
    } else if s[0].deleted {
        live_entries(s.skip(1))
    } else {
        seq![s[0]] + live_entries(s.skip(1))
    }
}

/// The frames of `s`, laid end to end.
pub open spec fn concat_frames(s: Seq<KVEntryView>) -> Seq<u8>
    decreases s.len(),
{
    if s.len() == 0 {
        Seq::empty()
    } else {
        frame_of(s[0]) + concat_frames(s.skip(1))
    }
}

/// Whether a scanned key continues the ascending run.
pub open spec fn scan_ok(last: Option<Seq<u8>>, key: Seq<u8>) -> bool {
    match last {
        None => true,
        Some(k) => lex_lt(k, key),
    }
}

/// The records a sequential scan of `data` recovers: frames read one after
/// another, stopping at the first undecodable frame, the first frame whose
/// stored checksum does not match one recomputed over its covered bytes, or
/// the first key out of ascending order. `last` is the previously scanned
/// key, if any.
pub open spec fn spec_open_scan(data: Seq<u8>, last: Option<Seq<u8>>) -> Seq<KVEntryView>
    decreases data.len(),
    via spec_open_scan_decreases
{
    match spec_parse_entry(data) {
        EntryParse::Fail(_) => Seq::empty(),
        EntryParse::Found(v, n) => {
            if frame_crc_valid(v) && scan_ok(last, v.key) {
                seq![kv_of(v)] + spec_open_scan(data.skip(n), Some(v.key))
            } else {
                Seq::empty()
            }
        },
    }
}

#[via_fn]
proof fn spec_open_scan_decreases(data: Seq<u8>, last: Option<Seq<u8>>) {
    lemma_parse_entry_len(data);
}

/// One slot of the in-memory index: the key, where its frame starts, how
/// long the frame is, and the record's timestamp.
#[derive(Debug)]
pub struct IndexEntry {
    pub key: Vec<u8>,
    pub position: u64,
    pub size: usize,
    pub timestamp: u64,
}

/// One index slot's tie to the raw bytes and its record: matching key and
/// timestamp, a consistent tombstone flag, and a frame at the stored
/// position that scans back to the record — checksum included — consuming
/// exactly the stored size.
#[verifier::opaque]
pub open spec fn slot_ok(data: Seq<u8>, ix: IndexEntry, e: KVEntryView) -> bool {
    &&& ix.key@ == e.key
    &&& ix.timestamp == e.timestamp
    &&& e.deleted == (e.entry_type == EntryType::Delete)
    &&& ix.position + ix.size <= data.len()
    &&& match spec_parse_entry(data.skip(ix.position as int)) {
        EntryParse::Found(v, n) => n == ix.size && kv_of(v) == e && frame_crc_valid(v),
        EntryParse::Fail(_) => false,
    }
}

/// A sorted immutable file: the raw frame bytes, the index rebuilt over
/// them, a Bloom filter over every key present, and the ghost record
/// sequence the file denotes.
pub struct SSTable {
    pub level: u8,
    pub file_name: Vec<u8>,
    pub data: Vec<u8>,
    pub index: Vec<IndexEntry>,
    pub bloom_filter: Option<BloomFilter>,
    pub entries_model: Ghost<Seq<KVEntryView>>,
}

impl SSTable {
    /// The records this file holds, in ascending key order.
    pub open spec fn model(self) -> Seq<KVEntryView> {
        self.entries_model@
    }

    /// The file's internal shape: the index and the model line up slot by
    /// slot, each slot's frame scans back to its record and starts where the
    /// previous slot's frame ends, keys ascend strictly, and the Bloom
    /// filter covers every key present.
    pub open spec fn wf(self) -> bool {
        &&& self.entries_model@.len() == self.index@.len()
        &&& forall|j: int|
            0 <= j < self.index@.len() ==> (#[trigger] self.index@[j]).position == (if j == 0 {
                0int
            } else {
                self.index@[j - 1].position + self.index@[j - 1].size
            })
        &&& forall|j: int|
            0 <= j < self.index@.len() ==> #[trigger] slot_ok(
                self.data@,
                self.index@[j],
                self.entries_model@[j],
            )
        &&& sorted_by_key(self.entries_model@)
        &&& match self.bloom_filter {
            Some(b) => b.wf() && forall|j: int|
                0 <= j < self.entries_model@.len() ==> covers(
                    b.bit_array@,
                    b.num_hashes,
                    (#[trigger] self.entries_model@[j]).key,
                ),
            None => true,
        }
    }

    /// Builds a sorted file from an ordered run of records: one frame per
    /// record that is not a tombstone, an index slot per frame, and a Bloom
    /// filter over the written keys. The file name carries the table, the
    /// level, the caller's wall-clock time and the record count.
    #[verifier::rlimit(100)]
    #[verifier::spinoff_prover]
    pub fn create(
        level: u8,
        entries: &Vec<KVEntry>,
        table_type: TableType,
        timestamp: u64,
    ) -> (r: SSTable)
        requires
            sorted_by_key(views_of(entries@)),
            forall|i: int|
                0 <= i < entries@.len() ==> (#[trigger] views_of(entries@)[i]).deleted == (
                views_of(entries@)[i].entry_type == EntryType::Delete),
            concat_frames(live_entries(views_of(entries@))).len() <= usize::MAX,
            entries@.len() < 0x1_0000_0000,
        ensures
            r.wf(),
            r.bloom_filter is Some,
            r.level == level,
            r.model() == live_entries(views_of(entries@)),
            r.data@ == concat_frames(live_entries(views_of(entries@))),
            r.file_name@ == spec_sst_file_name(table_type, level, timestamp, entries@.len() as u64),
    {
        let ghost view = views_of(entries@);
        let count = entries.len();
        let file_name = sst_file_name(table_type, level, timestamp, count as u64);
        let mut data: Vec<u8> = Vec::new();
        let mut index: Vec<IndexEntry> = Vec::new();
        let ghost mut model: Seq<KVEntryView> = Seq::empty();
        let mut i: usize = 0;
        proof {
            assert(view.skip(0) =~= view);
            assert(live_entries(view.subrange(0, 0)) =~= Seq::<KVEntryView>::empty());
        }
        while i < count
            invariant
                i <= count,
                count == entries@.len(),
                view == views_of(entries@),
                sorted_by_key(view),
                forall|q: int|
                    0 <= q < view.len() ==> (#[trigger] view[q]).deleted == (view[q].entry_type
                        == EntryType::Delete),
                concat_frames(live_entries(view)).len() <= usize::MAX,
                model == live_entries(view.subrange(0, i as int)),
                data@ + concat_frames(live_entries(view.skip(i as int))) == concat_frames(
                    live_entries(view),
                ),
                index@.len() == model.len(),
                index@.len() <= i,
                index@.len() == 0 ==> data@.len() == 0,
                index@.len() > 0 ==> data@.len() == index@.last().position
                    + index@.last().size,
                forall|j: int|
                    0 <= j < index@.len() ==> (#[trigger] index@[j]).position == (if j == 0 {
                        0int
                    } else {
                        index@[j - 1].position + index@[j - 1].size
                    }),
                forall|j: int|
                    0 <= j < index@.len() ==> {
                        let ix = #[trigger] index@[j];
                        let e = model[j];
                        &&& ix.key@ == e.key
                        &&& ix.timestamp == e.timestamp
                        &&& ix.position + ix.size <= data@.len()
                        &&& data@.subrange(ix.position as int, ix.position + ix.size) == frame_of(
                            e,
                        )
                        &&& ix.size == frame_of(e).len()
                    },
            decreases count - i,
        {
            let ghost tail = view.skip(i as int);
            proof {
                assert(tail[0] == view[i as int]);
                assert(tail.skip(1) =~= view.skip(i as int + 1));
                if view[i as int].deleted {
                    assert(live_entries(tail) == live_entries(view.skip(i as int + 1)));
                } else {
                    assert(live_entries(tail) == seq![view[i as int]] + live_entries(
                        view.skip(i as int + 1),
                    ));
                }
            }
            let e = &entries[i];
            if !e.deleted {
                let ghost ev = view[i as int];
                let ghost frame = frame_of(ev);
                proof {
                    assert(concat_frames(live_entries(tail)) == frame + concat_frames(
                        live_entries(view.skip(i as int + 1)),
                    )) by {
                        let lt = live_entries(tail);
                        assert(lt[0] == ev);
                        assert(lt.skip(1) =~= live_entries(view.skip(i as int + 1)));
                    }
                    assert(data@.len() + frame.len() <= usize::MAX) by {
                        assert((data@ + concat_frames(live_entries(tail))).len()
                            == concat_frames(live_entries(view)).len());
                    }
                    crate::varint::lemma_varint_len(ev.key.len() as u64);
                    crate::varint::lemma_varint_len(ev.value.len() as u64);
                    vstd::bytes::lemma_auto_spec_u64_to_from_le_bytes();
                    vstd::bytes::lemma_auto_spec_u32_to_from_le_bytes();
                    assert(frame.len() == crate::codec::spec_entry_frame_len(ev.key, ev.value));
                }
                let position = data.len();
                let mut frame_entry = BDBLogEntry::new(
                    e.entry_type,
                    crate::wire::read_bytes(e.key.as_slice(), 0, e.key.len()),
                    crate::wire::read_bytes(e.value.as_slice(), 0, e.value.len()),
                    e.timestamp,
                );
                proof {
                    assert(frame_entry.key@ =~= ev.key);
                    assert(frame_entry.value@ =~= ev.value);
                }
                let ghost data0 = data@;
                let size = frame_entry.write(&mut data);
                let ix = IndexEntry {
                    key: frame_entry.key,
                    position: position as u64,
                    size,
                    timestamp: e.timestamp,
                };
                index.push(ix);
                proof {
                    model = model.push(ev);
                    assert(data@.subrange(position as int, position + size as int) =~= frame);
                    assert(data@ + concat_frames(live_entries(view.skip(i as int + 1)))
                        =~= concat_frames(live_entries(view)));
                    assert(model =~= live_entries(view.subrange(0, i as int + 1))) by {
                        lemma_live_snoc(view, i as int);
                    }
                    assert forall|j: int| 0 <= j < index@.len() - 1 implies {
                        let ix2 = #[trigger] index@[j];
                        let e2 = model[j];
                        &&& ix2.key@ == e2.key
                        &&& ix2.timestamp == e2.timestamp
                        &&& ix2.position + ix2.size <= data@.len()
                        &&& data@.subrange(ix2.position as int, ix2.position + ix2.size)
                            == frame_of(e2)
                        &&& ix2.size == frame_of(e2).len()
                    } by {
                        let ix2 = index@[j];
                        assert(data@.subrange(ix2.position as int, ix2.position + ix2.size)
                            =~= data0.subrange(ix2.position as int, ix2.position + ix2.size));
                    }
                }
            } else {
                proof {
                    model = model;
                    assert(live_entries(view.subrange(0, i as int + 1)) =~= model) by {
                        lemma_live_snoc(view, i as int);
                    }
                }
            }
            i = i + 1;
        }
        proof {
            assert(view.subrange(0, count as int) =~= view);
            assert(view.skip(count as int) =~= Seq::<KVEntryView>::empty());
            assert(data@ =~= concat_frames(live_entries(view)));
        }
        let bloom_n = if index.len() < 0xffff_ffff {
            index.len()
        } else {
            0xffff_ffff
        };
        let mut bloom = BloomFilter::new(bloom_n);
        let n = index.len();
        let mut j: usize = 0;
        while j < n
            invariant
                j <= n,
                n == index@.len(),
                bloom.wf(),
                forall|q: int|
                    0 <= q < j ==> covers(
                        bloom.bit_array@,
                        bloom.num_hashes,
                        (#[trigger] index@[q]).key@,
                    ),
            decreases n - j,
        {
            let ghost bits0 = bloom.bit_array@;
            let ghost k0 = bloom.num_hashes;
            bloom.add(index[j].key.as_slice());
            proof {
                assert forall|q: int| 0 <= q < j implies covers(
                    bloom.bit_array@,
                    bloom.num_hashes,
                    (#[trigger] index@[q]).key@,
                ) by {
                    lemma_covers_monotone(bits0, bloom.bit_array@, k0, index@[q].key@);
                }
            }
            j = j + 1;
        }
        let total_len = data.len();
        let r = SSTable {
            level,
            file_name,
            data,
            index,
            bloom_filter: Some(bloom),
            entries_model: Ghost(model),
        };
        proof {
            assert(r.data@.len() <= usize::MAX);
            lemma_live_sorted(view);
            assert forall|q: int| 0 <= q < r.index@.len() implies #[trigger] slot_ok(
                r.data@,
                r.index@[q],
                r.entries_model@[q],
            ) by {
                reveal(slot_ok);
                let ix = r.index@[q];
                let e = r.entries_model@[q];
                assert(e.deleted == (e.entry_type == EntryType::Delete)) by {
                    lemma_live_membership(view, q);
                    let i0 = choose|i: int|
                        0 <= i < view.len() && view[i] == live_entries(view)[q];
                    assert(view[i0].deleted == (view[i0].entry_type == EntryType::Delete));
                }
                lemma_slot_parses(r.data@, ix.position as int, ix.size as int, e);
            }
            assert forall|q: int| 0 <= q < r.entries_model@.len() implies covers(
                bloom.bit_array@,
                bloom.num_hashes,
                (#[trigger] r.entries_model@[q]).key,
            ) by {
                assert(r.index@[q].key@ == r.entries_model@[q].key);
                assert(covers(bloom.bit_array@, bloom.num_hashes, r.index@[q].key@));
            }
        }
        r
    }

    /// Rebuilds a sorted file from its raw bytes: frames are scanned one
    /// after another and scanning stops at the first undecodable frame, the
    /// first frame whose stored checksum does not match one recomputed over
    /// its covered bytes, or the first key out of ascending order, keeping
    /// the valid prefix.
    #[verifier::rlimit(100)]
    #[verifier::spinoff_prover]
    pub fn open(level: u8, file_name: Vec<u8>, data: Vec<u8>) -> (r: SSTable)
        ensures
            r.wf(),
            r.bloom_filter is Some,
            r.level == level,
            r.file_name@ == file_name@,
            r.data@ == data@,
            r.model() == spec_open_scan(data@, None::<Seq<u8>>),
    {
        let mut index: Vec<IndexEntry> = Vec::new();
        let ghost mut model: Seq<KVEntryView> = Seq::empty();
        let mut pos: usize = 0;
        let ghost mut last: Option<Seq<u8>> = None;
        let mut done = false;
        proof {
            assert(data@.skip(0) =~= data@);
        }
        while !done
            invariant
                pos <= data@.len(),
                index@.len() == model.len(),
                index@.len() == 0 ==> pos == 0,
                index@.len() > 0 ==> pos == index@.last().position + index@.last().size,
                forall|j: int|
                    0 <= j < index@.len() ==> (#[trigger] index@[j]).position == (if j == 0 {
                        0int
                    } else {
                        index@[j - 1].position + index@[j - 1].size
                    }),
                sorted_by_key(model),
                model + (if done {
                    Seq::<KVEntryView>::empty()
                } else {
                    spec_open_scan(data@.skip(pos as int), last)
                }) == spec_open_scan(data@, None::<Seq<u8>>),
                forall|j: int|
                    0 <= j < index@.len() ==> #[trigger] slot_ok(data@, index@[j], model[j]),
                index@.len() > 0 ==> (match last {
                    Some(k) => k == model[model.len() - 1].key,
                    None => false,
                }),
                index@.len() == 0 ==> last is None,
                forall|j: int|
                    0 <= j < model.len() ==> (match last {
                        Some(k) => #[trigger] model[j].key == k || lex_lt(model[j].key, k),
                        None => false,
                    }),
            decreases data@.len() - pos + (if done {
                0int
            } else {
                1int
            }),
        {
            proof {
                lemma_parse_entry_len(data@.skip(pos as int));
            }
            match BDBLogEntry::read(data.as_slice(), pos) {
                Err(_) => {
                    done = true;
                },
                Ok((le, end)) => {
                    let ghost v = LogEntryView {
                        entry_type: le.entry_type,
                        key: le.key@,
                        value: le.value@,
                        timestamp: le.timestamp,
                        entry_crc: le.entry_crc,
                    };
                    proof {
                        lemma_parse_entry_field_lens(data@.skip(pos as int));
                    }
                    let crc_ok = le.calculate_crc() == le.entry_crc;
                    let in_order = if index.len() == 0 {
                        true
                    } else {
                        let lastix = index.len() - 1;
                        match bytes_cmp(index[lastix].key.as_slice(), le.key.as_slice()) {
                            BytesOrder::Less => true,
                            _ => false,
                        }
                    };
                    proof {
                        assert(crc_ok == frame_crc_valid(v));
                        if index@.len() > 0 {
                            let li = index@.len() - 1;
                            assert(index@[li as int].key@ == model[li as int].key) by {
                                reveal(slot_ok);
                                assert(slot_ok(data@, index@[li as int], model[li as int]));
                            }
                            let k = model[model.len() - 1].key;
                            assert(in_order == lex_lt(k, v.key));
                        }
                        assert(in_order == scan_ok(last, v.key));
                    }
                    if !crc_ok || !in_order {
                        done = true;
                        proof {
                            assert(spec_open_scan(data@.skip(pos as int), last)
                                =~= Seq::<KVEntryView>::empty());
                        }
                    } else {
                        let size = end - pos;
                        let timestamp = le.timestamp;
                        let deleted = le.entry_type.to_u8() == 3;
                        proof {
                            assert(deleted == (le.entry_type == EntryType::Delete));
                        }
                        let ix = IndexEntry {
                            key: le.key,
                            position: pos as u64,
                            size,
                            timestamp,
                        };
                        let ghost oldindex = index@;
                        let ghost oldmodel = model;
                        index.push(ix);
                        proof {
                            let newmodel = model.push(kv_of(v));
                            if model.len() > 0 {
                                let k = match last {
                                    Some(k) => k,
                                    None => Seq::empty(),
                                };
                                lemma_sorted_push(model, kv_of(v), k);
                            }
                            assert(model + spec_open_scan(data@.skip(pos as int), last)
                                =~= newmodel + spec_open_scan(
                                data@.skip(end as int),
                                Some(v.key),
                            )) by {
                                assert(data@.skip(pos as int).skip((end - pos) as int)
                                    =~= data@.skip(end as int));
                            }
                            assert forall|j: int| 0 <= j < index@.len() implies
                                #[trigger] slot_ok(data@, index@[j], newmodel[j]) by {
                                if j < oldindex.len() {
                                    assert(index@[j] == oldindex[j]);
                                    assert(newmodel[j] == oldmodel[j]);
                                } else {
                                    assert(index@[j] == ix);
                                    assert(newmodel[j] == kv_of(v));
                                    assert(slot_ok(data@, ix, kv_of(v))) by {
                                        reveal(slot_ok);
                                    }
                                }
                            }
                            model = newmodel;
                            last = Some(v.key);
                        }
                        pos = end;
                    }
                },
            }
        }
        let bloom_n = if index.len() < 0xffff_ffff {
            index.len()
        } else {
            0xffff_ffff
        };
        let mut bloom = BloomFilter::new(bloom_n);
        let n = index.len();
        let mut j: usize = 0;
        while j < n
            invariant
                j <= n,
                n == index@.len(),
                bloom.wf(),
                forall|q: int|
                    0 <= q < j ==> covers(
                        bloom.bit_array@,
                        bloom.num_hashes,
                        (#[trigger] index@[q]).key@,
                    ),
            decreases n - j,
        {
            let ghost bits0 = bloom.bit_array@;
            let ghost k0 = bloom.num_hashes;
            bloom.add(index[j].key.as_slice());
            proof {
                assert forall|q: int| 0 <= q < j implies covers(
                    bloom.bit_array@,
                    bloom.num_hashes,
                    (#[trigger] index@[q]).key@,
                ) by {
                    lemma_covers_monotone(bits0, bloom.bit_array@, k0, index@[q].key@);
                }
            }
            j = j + 1;
        }
        proof {
            assert forall|q: int| 0 <= q < model.len() implies covers(
                bloom.bit_array@,
                bloom.num_hashes,
                (#[trigger] model[q]).key,
            ) by {
                assert(index@[q].key@ == model[q].key) by {
                    reveal(slot_ok);
                    assert(slot_ok(data@, index@[q], model[q]));
                }
                assert(covers(bloom.bit_array@, bloom.num_hashes, index@[q].key@));
            }
        }
        SSTable {
            level,
            file_name,
            data,
            index,
            bloom_filter: Some(bloom),
            entries_model: Ghost(model),
        }
    }

    /// Point lookup: the Bloom filter gates the probe, binary search finds
    /// the key's index slot, and the frame is re-read from the raw bytes and
    /// its checksum compared. Returns the record stored for `key`,
    /// tombstones included, or nothing.
    #[verifier::rlimit(100)]
    #[verifier::spinoff_prover]
    pub fn get(&self, key: &[u8]) -> (r: Option<KVEntry>)
        requires
            self.wf(),
        ensures
            match r {
                Some(e) => seq_lookup(self.model(), key@) == Some(e@),
                None => seq_lookup(self.model(), key@) is None,
            },
    {
        match &self.bloom_filter {
            Some(bf) => {
                if !bf.might_contain(key) {
                    proof {
                        assert forall|j: int| 0 <= j < self.model().len() implies (
                        #[trigger] self.model()[j]).key != key@ by {
                            if self.model()[j].key == key@ {
                                assert(covers(bf.bit_array@, bf.num_hashes, key@));
                            }
                        }
                        lemma_seq_lookup_none(self.model(), key@);
                    }
                    return None;
                }
            },
            None => {},
        }
        proof {
            assert forall|j: int| 0 <= j < self.index@.len() implies (
            #[trigger] self.index@[j]).key@ == self.entries_model@[j].key by {
                reveal(slot_ok);
                assert(slot_ok(self.data@, self.index@[j], self.entries_model@[j]));
            }
        }
        let mut lo: usize = 0;
        let mut hi: usize = self.index.len();
        let mut found: Option<usize> = None;
        while lo < hi
            invariant
                lo <= hi <= self.index@.len(),
                self.entries_model@.len() == self.index@.len(),
                sorted_by_key(self.entries_model@),
                forall|j: int|
                    0 <= j < self.index@.len() ==> (#[trigger] self.index@[j]).key@
                        == self.entries_model@[j].key,
                found is None ==> forall|j: int|
                    0 <= j < lo ==> lex_lt((#[trigger] self.model()[j]).key, key@),
                found is None ==> forall|j: int|
                    hi <= j < self.model().len() ==> lex_lt(key@, (#[trigger] self.model()[j]).key),
                match found {
                    Some(m) => m < self.model().len() && self.model()[m as int].key == key@,
                    None => true,
                },
            decreases hi - lo,
        {
            let mid = lo + (hi - lo) / 2;
            match bytes_cmp(self.index[mid].key.as_slice(), key) {
                BytesOrder::Less => {
                    proof {
                        assert forall|j: int| 0 <= j < mid + 1 implies lex_lt(
                            (#[trigger] self.model()[j]).key,
                            key@,
                        ) by {
                            if j < mid {
                                crate::order::lemma_lex_trans(
                                    self.model()[j].key,
                                    self.model()[mid as int].key,
                                    key@,
                                );
                            }
                        }
                    }
                    lo = mid + 1;
                },
                BytesOrder::Greater => {
                    proof {
                        assert forall|j: int| mid <= j < self.model().len() implies lex_lt(
                            key@,
                            (#[trigger] self.model()[j]).key,
                        ) by {
                            if j > mid {
                                crate::order::lemma_lex_trans(
                                    key@,
                                    self.model()[mid as int].key,
                                    self.model()[j].key,
                                );
                            }
                        }
                    }
                    hi = mid;
                },
                BytesOrder::Equal => {
                    found = Some(mid);
                    hi = lo;
                },
            }
        }
        let mid = match found {
            Some(m) => m,
            None => {
                proof {
                    assert forall|j: int| 0 <= j < self.model().len() implies (
                    #[trigger] self.model()[j]).key != key@ by {
                        lemma_lex_trichotomy(self.model()[j].key, key@);
                    }
                    lemma_seq_lookup_none(self.model(), key@);
                }
                return None;
            },
        };
        proof {
            reveal(slot_ok);
            assert(slot_ok(self.data@, self.index@[mid as int], self.entries_model@[mid as int]));
            assert forall|j: int| 0 <= j < mid implies (#[trigger] self.model()[j]).key
                != self.model()[mid as int].key by {
                lemma_lex_trichotomy(self.model()[j].key, self.model()[mid as int].key);
            }
            lemma_seq_lookup_at(self.model(), mid as int);
        }
        let dlen = self.data.len();
        let ie = &self.index[mid];
        proof {
            reveal(slot_ok);
            assert(self.index@[mid as int].position + self.index@[mid as int].size
                <= self.data@.len());
        }
        let start = ie.position as usize;
        let end = start + ie.size;
        if end > dlen {
            proof {
                assert(false);
            }
            return None;
        }
        match BDBLogEntry::read(self.data.as_slice(), start) {
            Ok((le, _)) => {
                proof {
                    lemma_parse_entry_field_lens(self.data@.skip(start as int));
                }
                if le.calculate_crc() != le.entry_crc {
                    // A mismatched frame checksum is corruption; the hit is
                    // discarded as absent. A well-formed file never reaches
                    // this arm.
                    proof {
                        assert(false);
                    }
                    return None;
                }
                let deleted = le.entry_type.to_u8() == 3;
                proof {
                    assert(deleted == (le.entry_type == EntryType::Delete));
                }
                Some(
                    KVEntry {
                        key: le.key,
                        value: le.value,
                        timestamp: le.timestamp,
                        entry_type: le.entry_type,
                        deleted,
                    },
                )
            },
            Err(_) => {
                proof {
                    assert(false);
                }
                None
            },
        }
    }
}

/// Appending a record whose key exceeds every key of an ascending run keeps
/// the run ascending, and the appended key bounds the whole new run.
proof fn lemma_sorted_push(model: Seq<KVEntryView>, e: KVEntryView, lastkey: Seq<u8>)
    requires
        sorted_by_key(model),
        forall|j: int|
            0 <= j < model.len() ==> (#[trigger] model[j]).key == lastkey || lex_lt(
                model[j].key,
                lastkey,
            ),
        lex_lt(lastkey, e.key),
    ensures
        sorted_by_key(model.push(e)),
        forall|j: int|
            0 <= j < model.push(e).len() ==> (#[trigger] model.push(e)[j]).key == e.key || lex_lt(
                model.push(e)[j].key,
                e.key,
            ),
{
    assert forall|a: int, b: int| 0 <= a < b < model.push(e).len() implies lex_lt(
        model.push(e)[a].key,
        model.push(e)[b].key,
    ) by {
        if b == model.len() && a < model.len() {
            if lex_lt(model[a].key, lastkey) {
                crate::order::lemma_lex_trans(model[a].key, lastkey, e.key);
            }
        }
    }
    assert forall|j: int| 0 <= j < model.push(e).len() implies (
    #[trigger] model.push(e)[j]).key == e.key || lex_lt(model.push(e)[j].key, e.key) by {
        if j < model.len() {
            if lex_lt(model[j].key, lastkey) {
                crate::order::lemma_lex_trans(model[j].key, lastkey, e.key);
            }
        }
    }
}

/// A slot whose bytes are exactly a record's frame scans back to that
/// record, consuming exactly the frame, with a matching checksum.
proof fn lemma_slot_parses(data: Seq<u8>, pos: int, size: int, e: KVEntryView)
    requires
        data.len() <= usize::MAX,
        0 <= pos,
        pos + size <= data.len(),
        data.subrange(pos, pos + size) == frame_of(e),
        size == frame_of(e).len(),
        e.deleted == (e.entry_type == EntryType::Delete),
    ensures
        match spec_parse_entry(data.skip(pos)) {
            EntryParse::Found(v, n) => n == size && kv_of(v) == e && frame_crc_valid(v),
            EntryParse::Fail(_) => false,
        },
{
    crate::varint::lemma_varint_len(e.key.len() as u64);
    crate::varint::lemma_varint_len(e.value.len() as u64);
    vstd::bytes::lemma_auto_spec_u64_to_from_le_bytes();
    vstd::bytes::lemma_auto_spec_u32_to_from_le_bytes();
    assert(frame_of(e).len() == crate::codec::spec_entry_frame_len(e.key, e.value));
    assert(e.key.len() + e.value.len() + 13 <= frame_of(e).len());
    assert(data.skip(pos) =~= frame_of(e) + data.skip(pos + size));
    lemma_entry_round_trip(e.entry_type, e.key, e.value, e.timestamp, data.skip(pos + size));
}

/// The live run of a prefix grows by the next record exactly when it is not
/// a tombstone.
proof fn lemma_live_snoc(s: Seq<KVEntryView>, i: int)
    requires
        0 <= i < s.len(),
    ensures
        live_entries(s.subrange(0, i + 1)) == live_entries(s.subrange(0, i)) + (if s[
            i
        ].deleted {
            Seq::<KVEntryView>::empty()
        } else {
            seq![s[i]]
        }),
    decreases i,
{
    let p = s.subrange(0, i + 1);
    let q = s.subrange(0, i);
    if i == 0 {
        assert(p =~= seq![s[0]]);
        assert(q =~= Seq::<KVEntryView>::empty());
        assert(p.skip(1) =~= Seq::<KVEntryView>::empty());
        if s[0].deleted {
            assert(live_entries(p) =~= live_entries(q) + Seq::<KVEntryView>::empty());
        } else {
            assert(live_entries(p) =~= live_entries(q) + seq![s[0]]);
        }
    } else {
        lemma_live_snoc(s.skip(1), i - 1);
        assert(p[0] == s[0] && q[0] == s[0]);
        assert(p.skip(1) =~= s.skip(1).subrange(0, i));
        assert(q.skip(1) =~= s.skip(1).subrange(0, i - 1));
        assert(s.skip(1)[i - 1] == s[i]);
        if s[0].deleted {
            assert(live_entries(p) == live_entries(p.skip(1)));
            assert(live_entries(q) == live_entries(q.skip(1)));
        } else {
            assert(live_entries(p) == seq![s[0]] + live_entries(p.skip(1)));
            assert(live_entries(q) == seq![s[0]] + live_entries(q.skip(1)));
        }
        if s[i].deleted {
            assert(live_entries(p) =~= live_entries(q));
        } else {
            assert(live_entries(p) =~= live_entries(q) + seq![s[i]]);
        }
    }
}

/// Every live record is one of the run's records.
proof fn lemma_live_membership(s: Seq<KVEntryView>, j: int)
    requires
        0 <= j < live_entries(s).len(),
    ensures
        exists|i: int| 0 <= i < s.len() && s[i] == live_entries(s)[j],
    decreases s.len(),
{
    if s.len() > 0 {
        if s[0].deleted {
            lemma_live_membership(s.skip(1), j);
            let i0 = choose|i: int|
                0 <= i < s.skip(1).len() && s.skip(1)[i] == live_entries(s.skip(1))[j];
            assert(s[i0 + 1] == live_entries(s)[j]);
        } else {
            if j == 0 {
                assert(s[0] == live_entries(s)[0]);
            } else {
                lemma_live_membership(s.skip(1), j - 1);
                let i0 = choose|i: int|
                    0 <= i < s.skip(1).len() && s.skip(1)[i] == live_entries(s.skip(1))[j - 1];
                assert(s[i0 + 1] == live_entries(s)[j]);
            }
        }
    }
}

/// Dropping tombstones keeps the remaining keys strictly ascending.
proof fn lemma_live_sorted(s: Seq<KVEntryView>)
    requires
        sorted_by_key(s),
    ensures
        sorted_by_key(live_entries(s)),
    decreases s.len(),
{
    if s.len() > 0 {
        assert(sorted_by_key(s.skip(1))) by {
            assert forall|a: int, b: int| 0 <= a < b < s.skip(1).len() implies lex_lt(
                s.skip(1)[a].key,
                s.skip(1)[b].key,
            ) by {
                assert(s.skip(1)[a] == s[a + 1] && s.skip(1)[b] == s[b + 1]);
            }
        }
        lemma_live_sorted(s.skip(1));
        if !s[0].deleted {
            let t = seq![s[0]] + live_entries(s.skip(1));
            assert forall|a: int, b: int| 0 <= a < b < t.len() implies lex_lt(
                t[a].key,
                t[b].key,
            ) by {
                if a == 0 {
                    lemma_live_membership(s.skip(1), b - 1);
                    let i0 = choose|i: int|
                        0 <= i < s.skip(1).len() && s.skip(1)[i] == live_entries(s.skip(1))[b
                            - 1];
                    assert(lex_lt(s[0].key, s[i0 + 1].key));
                }
            }
        }
    }
}

/// Scanning the laid-out frames of an ascending run of records recovers the
/// run: a file written from a sorted buffer reads back record for record.
pub proof fn lemma_sst_recovery(s: Seq<KVEntryView>, last: Option<Seq<u8>>)
    requires
        sorted_by_key(s),
        forall|i: int|
            0 <= i < s.len() ==> (#[trigger] s[i]).deleted == (s[i].entry_type
                == EntryType::Delete),
        forall|i: int|
            0 <= i < s.len() ==> (#[trigger] s[i]).key.len() <= usize::MAX && s[i].value.len()
                <= usize::MAX,
        s.len() > 0 ==> scan_ok(last, s[0].key),
    ensures
        spec_open_scan(concat_frames(s), last) == s,
    decreases s.len(),
{
    if s.len() == 0 {
        assert(spec_parse_entry(concat_frames(s)) == EntryParse::Fail(
            crate::kinds::CodecError::Truncated,
        ));
        assert(spec_open_scan(concat_frames(s), last) =~= s);
    } else {
        let e = s[0];
        let rest = concat_frames(s.skip(1));
        assert(concat_frames(s) == frame_of(e) + rest);
        lemma_entry_round_trip(e.entry_type, e.key, e.value, e.timestamp, rest);
        crate::varint::lemma_varint_len(e.key.len() as u64);
        crate::varint::lemma_varint_len(e.value.len() as u64);
        vstd::bytes::lemma_auto_spec_u64_to_from_le_bytes();
        vstd::bytes::lemma_auto_spec_u32_to_from_le_bytes();
        let n = crate::codec::spec_entry_frame_len(e.key, e.value);
        assert(frame_of(e).len() == n);
        assert((frame_of(e) + rest).skip(n) =~= rest);
        assert(sorted_by_key(s.skip(1))) by {
            assert forall|a: int, b: int| 0 <= a < b < s.skip(1).len() implies lex_lt(
                s.skip(1)[a].key,
                s.skip(1)[b].key,
            ) by {
                assert(s.skip(1)[a] == s[a + 1] && s.skip(1)[b] == s[b + 1]);
            }
        }
        lemma_sst_recovery(s.skip(1), Some(e.key));
        assert(spec_open_scan(concat_frames(s), last) =~= s);
    }
}

/// A file created from an ordered buffer reopens to the same records: what
/// a flush wrote, recovery scans back record for record.
pub proof fn lemma_create_then_open(s: Seq<KVEntryView>)
    requires
        sorted_by_key(s),
        forall|i: int|
            0 <= i < s.len() ==> (#[trigger] s[i]).deleted == (s[i].entry_type
                == EntryType::Delete),
        forall|i: int|
            0 <= i < s.len() ==> (#[trigger] s[i]).key.len() <= usize::MAX && s[i].value.len()
                <= usize::MAX,
    ensures
        spec_open_scan(concat_frames(live_entries(s)), None::<Seq<u8>>) == live_entries(s),
{
    let ls = live_entries(s);
    lemma_live_sorted(s);
    assert forall|i: int| 0 <= i < ls.len() implies (#[trigger] ls[i]).deleted == (ls[
        i
    ].entry_type == EntryType::Delete) && ls[i].key.len() <= usize::MAX && ls[i].value.len()
        <= usize::MAX by {
        lemma_live_membership(s, i);
        let i0 = choose|q: int| 0 <= q < s.len() && s[q] == ls[i];
        assert(s[i0].deleted == (s[i0].entry_type == EntryType::Delete));
    }
    lemma_sst_recovery(ls, None::<Seq<u8>>);
}

/// A run without tombstones survives the live-record pass whole.
pub proof fn lemma_live_id(s: Seq<KVEntryView>)
    requires
        forall|i: int| 0 <= i < s.len() ==> !(#[trigger] s[i]).deleted,
    ensures
        live_entries(s) == s,
    decreases s.len(),
{
    if s.len() > 0 {
        assert(forall|i: int| 0 <= i < s.skip(1).len() ==> s.skip(1)[i] == s[i + 1]);
        lemma_live_id(s.skip(1));
        assert(live_entries(s) == seq![s[0]] + live_entries(s.skip(1)));
        assert(seq![s[0]] + s.skip(1) =~= s);
    }
}

/// Recovery over a whole run of flushes: for every sequence of ordered
/// buffers that flushes turned into files, scanning each file's bytes yields
/// exactly the records its flush wrote, file for file — so an engine that
/// takes all the files back serves the same records the files were given.
pub proof fn lemma_flushes_recover(buffers: Seq<Seq<KVEntryView>>)
    requires
        forall|b: int| 0 <= b < buffers.len() ==> sorted_by_key(#[trigger] buffers[b]),
        forall|b: int, i: int|
            0 <= b < buffers.len() && 0 <= i < buffers[b].len() ==> (#[trigger] buffers[b][
                i
            ]).deleted == (buffers[b][i].entry_type == EntryType::Delete),
        forall|b: int, i: int|
            0 <= b < buffers.len() && 0 <= i < buffers[b].len() ==> (#[trigger] buffers[b][
                i
            ]).key.len() <= usize::MAX && buffers[b][i].value.len() <= usize::MAX,
    ensures
        forall|b: int|
            0 <= b < buffers.len() ==> spec_open_scan(
                concat_frames(live_entries(#[trigger] buffers[b])),
                None::<Seq<u8>>,
            ) == live_entries(buffers[b]),
{
    assert forall|b: int| 0 <= b < buffers.len() implies spec_open_scan(
        concat_frames(live_entries(#[trigger] buffers[b])),
        None::<Seq<u8>>,
    ) == live_entries(buffers[b]) by {
        lemma_create_then_open(buffers[b]);
    }
}

} // verus!
