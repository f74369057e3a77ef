use browserdb::bloom::BloomFilter;
use browserdb::heat::{HeatTracker, QueryType};
use browserdb::kinds::{EntryType, TableType};
use browserdb::lsm::LSMTree;
use browserdb::memtable::{KVEntry, MemTable};
use browserdb::names::{parse_sst_file_name, sst_file_name};
use browserdb::order::bytes_cmp;
use browserdb::sstable::SSTable;

fn key_of(i: u64) -> Vec<u8> {
    i.to_le_bytes().to_vec()
}

#[test]
fn memtable_put_get_and_replace() {
    let mut table = MemTable::new(1000, TableType::History);
    table.put(b"b".to_vec(), b"one".to_vec(), EntryType::Insert, 10);
    table.put(b"a".to_vec(), b"two".to_vec(), EntryType::Insert, 11);
    let b = table.get(b"b").expect("key written must be found");
    assert_eq!(b.value, b"one".to_vec());
    table.put(b"b".to_vec(), b"three".to_vec(), EntryType::Insert, 12);
    let b2 = table.get(b"b").expect("key rewritten must be found");
    assert_eq!(b2.value, b"three".to_vec());
    assert_eq!(b2.timestamp, 12);
    assert!(table.get(b"c").is_none());
    // One byte of accounting per key, value and the fixed overhead.
    assert_eq!(table.current_size, (1 + 3 + 9) + (1 + 5 + 9));
}

#[test]
fn memtable_flush_threshold() {
    let mut table = MemTable::new(20, TableType::History);
    assert!(!table.should_flush());
    table.put(b"k".to_vec(), b"0123456789".to_vec(), EntryType::Insert, 1);
    assert!(table.should_flush());
    table.clear();
    assert!(!table.should_flush());
    assert!(table.get(b"k").is_none());
}

#[test]
fn bloom_sizing_follows_the_formulas() {
    // One hundred keys at the one-percent target: ceil(100 * 9.5851) = 959
    // bits, 120 bytes, round(9.59 * 0.6931) = 7 hashes.
    let filter = BloomFilter::new(100);
    assert_eq!(filter.bit_array_size, 120);
    assert_eq!(filter.bit_array.len(), 120);
    assert_eq!(filter.num_hashes, 7);
    // Zero expected keys still yields a usable one-byte, one-hash filter.
    let empty = BloomFilter::new(0);
    assert_eq!(empty.bit_array_size, 1);
    assert_eq!(empty.num_hashes, 1);
}

#[test]
fn bloom_never_forgets_an_added_key() {
    let mut filter = BloomFilter::new(100);
    let mut keys: Vec<Vec<u8>> = Vec::new();
    for i in 0..100u64 {
        keys.push(key_of(i * 7 + 1));
    }
    for k in &keys {
        filter.add(k);
    }
    for k in &keys {
        assert!(filter.might_contain(k), "added key must stay possibly-present");
    }
}

#[test]
fn bloom_false_positive_rate_near_target() {
    let n = 10000u64;
    let mut filter = BloomFilter::new(n as usize);
    for i in 0..n {
        filter.add(&key_of(i));
    }
    let mut false_positives = 0u64;
    let queries = 10000u64;
    for i in n..n + queries {
        if filter.might_contain(&key_of(i)) {
            false_positives += 1;
        }
    }
    // The filter is sized for a one-percent target; stay within twice that.
    assert!(
        false_positives * 50 <= queries,
        "false positive rate too high: {} of {}",
        false_positives,
        queries
    );
}

fn sorted_entries(count: u64) -> Vec<KVEntry> {
    // Keys built to be in ascending byte order.
    let mut entries: Vec<KVEntry> = Vec::new();
    for i in 0..count {
        let mut key = vec![0u8; 8];
        key.copy_from_slice(&i.to_be_bytes());
        entries.push(KVEntry {
            key,
            value: format!("value-{}", i).into_bytes(),
            timestamp: 1000 + i,
            entry_type: EntryType::Insert,
            deleted: false,
        });
    }
    entries
}

#[test]
fn sst_create_and_get() {
    let entries = sorted_entries(50);
    let sst = SSTable::create(0, &entries, TableType::History, 12345);
    assert_eq!(sst.level, 0);
    assert_eq!(sst.index.len(), 50);
    for e in &entries {
        let found = sst.get(&e.key).expect("key written to the file must be found");
        assert_eq!(found.value, e.value);
        assert_eq!(found.timestamp, e.timestamp);
        assert!(!found.deleted);
    }
    assert!(sst.get(b"missing-key").is_none());
}

#[test]
fn sst_index_keys_strictly_ascending() {
    let entries = sorted_entries(64);
    let sst = SSTable::create(3, &entries, TableType::Cache, 777);
    for w in 1..sst.index.len() {
        let order = bytes_cmp(&sst.index[w - 1].key, &sst.index[w].key);
        assert_eq!(order, browserdb::order::BytesOrder::Less);
    }
}

#[test]
fn sst_create_skips_tombstones() {
    let mut entries = sorted_entries(10);
    entries[3].entry_type = EntryType::Delete;
    entries[3].deleted = true;
    let dropped_key = entries[3].key.clone();
    let sst = SSTable::create(0, &entries, TableType::History, 1);
    assert_eq!(sst.index.len(), 9);
    assert!(sst.get(&dropped_key).is_none());
}

#[test]
fn sst_open_recovers_created_file() {
    let entries = sorted_entries(40);
    let sst = SSTable::create(0, &entries, TableType::LocalStore, 42);
    let reopened = SSTable::open(0, sst.file_name.clone(), sst.data.clone());
    assert_eq!(reopened.index.len(), sst.index.len());
    for e in &entries {
        let found = reopened.get(&e.key).expect("recovered file must serve the key");
        assert_eq!(found.value, e.value);
        assert_eq!(found.timestamp, e.timestamp);
    }
}

#[test]
fn sst_open_keeps_valid_prefix_of_corrupt_file() {
    let entries = sorted_entries(5);
    let sst = SSTable::create(0, &entries, TableType::History, 9);
    let mut data = sst.data.clone();
    data.push(0x01);
    data.push(0xff);
    let reopened = SSTable::open(0, sst.file_name.clone(), data);
    assert_eq!(reopened.index.len(), 5);
    for e in &entries {
        assert!(reopened.get(&e.key).is_some());
    }
}

#[test]
fn sst_open_stops_at_frame_with_bad_checksum() {
    let entries = sorted_entries(3);
    let sst = SSTable::create(0, &entries, TableType::History, 9);
    let mut data = sst.data.clone();
    // Corrupt one payload byte inside the second frame: kind (1), two
    // one-byte length varints, eight key bytes, then the value.
    let frame_len = sst.index[1].size;
    let second = sst.index[0].size + 12;
    assert!(second + 1 < sst.index[0].size + frame_len);
    data[second] ^= 0x01;
    let reopened = SSTable::open(0, sst.file_name.clone(), data);
    // The scan keeps the frames before the corruption and stops there.
    assert_eq!(reopened.index.len(), 1);
    assert!(reopened.get(&entries[0].key).is_some());
    assert!(reopened.get(&entries[1].key).is_none());
}

#[test]
fn sst_get_discards_frame_with_bad_checksum() {
    let entries = sorted_entries(3);
    let mut sst = SSTable::create(0, &entries, TableType::History, 9);
    // Rot one payload byte of the second frame in place; lengths stay
    // intact, so the frame still parses, but its checksum no longer matches.
    let off = sst.index[1].position as usize + 12;
    sst.data[off] ^= 0x01;
    assert!(sst.get(&entries[1].key).is_none());
    assert!(sst.get(&entries[0].key).is_some());
}

#[test]
fn sst_bloom_gates_absent_keys() {
    let entries = sorted_entries(10000);
    let sst = SSTable::create(0, &entries, TableType::History, 5);
    let filter = sst.bloom_filter.as_ref().expect("a created file carries a filter");
    let mut rejected = 0u64;
    for i in 10000u64..11000u64 {
        let mut key = vec![0u8; 8];
        key.copy_from_slice(&i.to_be_bytes());
        if !filter.might_contain(&key) {
            rejected += 1;
        }
        assert!(sst.get(&key).is_none());
    }
    // The filter turns away nearly all absent keys before any byte of the
    // mapped region would be touched.
    assert!(rejected >= 950, "filter rejected only {} of 1000 absent keys", rejected);
}

#[test]
fn sst_file_name_round_trip() {
    let name = sst_file_name(TableType::LocalStore, 4, 1700000001234, 321);
    assert_eq!(
        String::from_utf8(name.clone()).unwrap(),
        "localstore_4_1700000001234_321.sst"
    );
    let parsed = parse_sst_file_name(&name, TableType::LocalStore);
    assert_eq!(parsed, Some((4u8, 1700000001234u64)));
    assert_eq!(parse_sst_file_name(&name, TableType::History), None);
    assert_eq!(parse_sst_file_name(b"localstore_44_1_1.sst", TableType::LocalStore), None);
    assert_eq!(parse_sst_file_name(b"localstore_4_1_1.dat", TableType::LocalStore), None);
}

#[test]
fn lsm_put_then_get() {
    let mut engine = LSMTree::new(TableType::History, 1000000);
    let flush = engine.put(b"page".to_vec(), b"contents".to_vec(), 500);
    assert!(flush.is_none());
    let found = engine.get(b"page").expect("a stored key must be found");
    assert_eq!(found.value, b"contents".to_vec());
    assert_eq!(found.timestamp, 500);
    assert!(engine.get(b"other").is_none());
}

#[test]
fn lsm_flush_at_threshold() {
    // Threshold 200 bytes; each record accounts 16 + 15 + 9 = 40 bytes, so
    // the fifth write must produce a level-zero file.
    let mut engine = LSMTree::new(TableType::History, 200);
    let mut flushed_files = 0;
    for i in 0..10u64 {
        let mut key = vec![0u8; 16];
        key[..8].copy_from_slice(&i.to_be_bytes());
        let value = format!("value-{:08}", i).into_bytes();
        assert_eq!(value.len(), 14);
        let key_len = key.len();
        let value2 = [value, vec![b'x'; 15 - 14]].concat();
        assert_eq!(key_len + value2.len() + 9, 40);
        if engine.put(key, value2, 1000 + i).is_some() {
            flushed_files += 1;
            assert!(i == 4 || i == 9, "flush must come with the fifth write of a batch");
        }
    }
    assert_eq!(flushed_files, 2);
    for i in 0..10u64 {
        let mut key = vec![0u8; 16];
        key[..8].copy_from_slice(&i.to_be_bytes());
        let found = engine.get(&key).expect("every written key must be readable");
        assert_eq!(found.timestamp, 1000 + i);
    }
}

#[test]
fn lsm_newer_write_shadows_flushed_value() {
    let mut engine = LSMTree::new(TableType::Settings, 1000000);
    engine.put(b"theme".to_vec(), b"light".to_vec(), 1);
    let f = engine.flush(2);
    assert!(f.is_some());
    engine.put(b"theme".to_vec(), b"dark".to_vec(), 3);
    let found = engine.get(b"theme").expect("key must be found");
    assert_eq!(found.value, b"dark".to_vec());
    let f2 = engine.flush(4);
    assert!(f2.is_some());
    let found2 = engine.get(b"theme").expect("key must still be found");
    assert_eq!(found2.value, b"dark".to_vec());
}

#[test]
fn lsm_tombstone_shadows_older_value() {
    let mut engine = LSMTree::new(TableType::History, 1000000);
    engine.put(b"k".to_vec(), b"v1".to_vec(), 1);
    let flushed = engine.flush(2).expect("a nonempty buffer must flush");
    engine.memtable.put(b"k".to_vec(), Vec::new(), EntryType::Delete, 3);
    let found = engine.get(b"k").expect("the tombstone itself is a record");
    assert!(found.deleted);
    assert_eq!(found.entry_type, EntryType::Delete);

    // Close and reopen: only the flushed file survives, so the older value
    // resurfaces; repeating the deletion yields the tombstone again.
    let mut reopened = LSMTree::new(TableType::History, 1000000);
    assert!(reopened.recover(&flushed.name, flushed.data));
    let back = reopened.get(b"k").expect("the flushed value must be recovered");
    assert_eq!(back.value, b"v1".to_vec());
    reopened.memtable.put(b"k".to_vec(), Vec::new(), EntryType::Delete, 4);
    let again = reopened.get(b"k").expect("the repeated deletion is a record");
    assert!(again.deleted);
    assert_eq!(again.entry_type, EntryType::Delete);
}

#[test]
fn lsm_recovery_reproduces_gets() {
    let mut engine = LSMTree::new(TableType::Cookies, 1000000);
    let mut files: Vec<(Vec<u8>, Vec<u8>)> = Vec::new();
    for i in 0..30u64 {
        engine.put(key_of(i), format!("cookie-{}", i).into_bytes(), 100 + i);
    }
    let f = engine.flush(200).expect("a nonempty buffer must flush");
    files.push((f.name, f.data));
    for i in 30..60u64 {
        engine.put(key_of(i), format!("cookie-{}", i).into_bytes(), 300 + i);
    }
    let f2 = engine.flush(400).expect("a nonempty buffer must flush");
    files.push((f2.name, f2.data));

    let mut recovered = LSMTree::new(TableType::Cookies, 1000000);
    for (name, data) in files {
        assert!(recovered.recover(&name, data), "an engine file must be taken back");
    }
    for i in 0..60u64 {
        let a = engine.get(&key_of(i)).expect("original engine must serve the key");
        let b = recovered.get(&key_of(i)).expect("recovered engine must serve the key");
        assert_eq!(a.value, b.value);
        assert_eq!(a.timestamp, b.timestamp);
    }
    assert!(recovered.get(&key_of(60)).is_none());
}

#[test]
fn lsm_recover_ignores_foreign_files() {
    let mut engine = LSMTree::new(TableType::History, 1000);
    assert!(!engine.recover(b"cookies_0_5_1.sst", vec![1, 2, 3]));
    assert!(!engine.recover(b"history_12_5_1.sst", vec![1, 2, 3]));
    assert!(!engine.recover(b"history_0_5_1.dat", vec![1, 2, 3]));
    assert!(engine.recover(b"history_0_5_1.sst", Vec::new()));
}

#[test]
fn heat_tracker_accumulates_and_decays() {
    let mut tracker = HeatTracker::new(1000, 0);
    tracker.record_access(b"url", QueryType::Read, 10);
    assert_eq!(tracker.get_heat(b"url", 10), 1);
    tracker.record_access(b"url", QueryType::Write, 20);
    assert_eq!(tracker.get_heat(b"url", 20), 3);
    tracker.record_access(b"url", QueryType::Delete, 30);
    assert_eq!(tracker.get_heat(b"url", 30), 6);
    tracker.record_access(b"url", QueryType::Compact, 40);
    assert_eq!(tracker.get_heat(b"url", 40), 10);
    assert_eq!(tracker.get_heat(b"other", 40), 0);
    // One full minute later the stored heat reads scaled by 95/100 once.
    assert_eq!(tracker.get_heat(b"url", 100), 9);
    // Two and three minutes: scaled twice and three times, rounding down.
    assert_eq!(tracker.get_heat(b"url", 160), 8);
    assert_eq!(tracker.get_heat(b"url", 220), 7);
}

#[test]
fn heat_tracker_sweeps_cold_entries() {
    let mut tracker = HeatTracker::new(1000, 0);
    tracker.record_access(b"warm", QueryType::Read, 10);
    // A minute later, an access to another key triggers the sweep; the warm
    // entry still has heat one and survives.
    tracker.record_access(b"hot", QueryType::Write, 80);
    assert_eq!(tracker.get_heat(b"warm", 80), 0);
    assert_eq!(tracker.heat_entries.len(), 2);
}
