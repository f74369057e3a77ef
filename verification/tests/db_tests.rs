use browserdb::db::{BrowserDB, DbError};
use browserdb::kinds::TableType;
use browserdb::modes::DatabaseMode;
use browserdb::records::{CacheEntry, CookieEntry, HistoryEntry, LocalStoreEntry, SettingEntry};

#[test]
fn test_database_creation_and_basic_operations() {
    let mut db = BrowserDB::new();

    let stats = db.stats();
    assert_eq!(stats.total_entries, 0);

    db.set_mode(DatabaseMode::Ultra).expect("Failed to set mode");

    let history_entry = HistoryEntry {
        timestamp: 1700000000000,
        url_hash: 0x123456789abcdef0,
        title: "Test Page".to_string(),
        visit_count: 1,
    };

    db.insert_history(&history_entry, 1700000000000);

    let retrieved = db.get_history(0x123456789abcdef0).expect("Failed to get history");
    assert!(retrieved.is_some());

    if let Some(entry) = retrieved {
        assert_eq!(entry.title, "Test Page");
        assert_eq!(entry.visit_count, 1);
    }
}

#[test]
fn test_cookie_operations() {
    let mut db = BrowserDB::new();

    let mut cookie = CookieEntry {
        domain_hash: 0xabcdef1234567890,
        name: "session_id".to_string(),
        value: "abc123xyz789".to_string(),
        expiry: 1700000000 + 3600,
        flags: 0,
    };
    cookie.set_secure();

    db.insert_cookie(&cookie, 1700000000000);

    assert!(cookie.is_secure());
    assert!(!cookie.is_httponly());
}

#[test]
fn test_cookie_flag_bits() {
    let mut cookie = CookieEntry::new(1, "a".to_string(), "b".to_string(), 99);
    assert!(!cookie.is_secure());
    assert!(!cookie.is_httponly());
    cookie.set_httponly();
    assert!(!cookie.is_secure());
    assert!(cookie.is_httponly());
    cookie.set_secure();
    assert!(cookie.is_secure());
    assert_eq!(cookie.flags, 3);
}

#[test]
fn test_cache_operations() {
    let mut db = BrowserDB::new();

    let cache_entry = CacheEntry {
        url_hash: 0x1111222233334444,
        headers: "Content-Type: text/html".to_string(),
        body: b"<html><body>Test Content</body></html>".to_vec(),
        etag: "W/\"abc123\"".to_string(),
        last_modified: 1700000000000,
    };

    db.insert_cache(&cache_entry, 1700000000000);

    // The stored bytes under the cache key are exactly the record's encoding.
    let key = browserdb::records::history_key(0x1111222233334444);
    let stored = db
        .get_raw(TableType::Cache, &key)
        .expect("Failed to get cache");
    assert_eq!(stored, browserdb::records::encode_cache(&cache_entry));
}

#[test]
fn test_localstorage_operations() {
    let mut db = BrowserDB::new();

    let localstore_entry = LocalStoreEntry {
        origin_hash: 0x5555666677778888,
        key: "user_preference".to_string(),
        value: r#"{"theme": "dark", "language": "en"}"#.to_string(),
    };

    db.insert_localstore(&localstore_entry, 1700000000000);

    // The composite key serves back the byte-identical stored value.
    let key = browserdb::records::localstore_key(0x5555666677778888, "user_preference");
    let stored = db
        .get_raw_localstore(&key)
        .expect("Failed to get localstore by origin");
    assert_eq!(stored, browserdb::records::encode_localstore(&localstore_entry));
}

#[test]
fn test_settings_operations() {
    let mut db = BrowserDB::new();

    db.set_setting("theme", "dark", 1);
    db.set_setting("language", "en", 2);

    let theme = db.get_setting("theme").expect("Failed to get theme");
    let language = db.get_setting("language").expect("Failed to get language");

    assert_eq!(theme, Some("dark".to_string()));
    assert_eq!(language, Some("en".to_string()));
    assert_eq!(db.get_setting("missing").expect("absent is not an error"), None);
}

#[test]
fn test_performance_operations() {
    let mut db = BrowserDB::new();

    let start_time = std::time::Instant::now();
    let num_entries = 1000;

    for i in 0..num_entries {
        let entry = HistoryEntry {
            timestamp: 1700000000000 + i as u128,
            url_hash: u128::from_le_bytes([i as u8; 16]),
            title: format!("Performance Test Entry {}", i),
            visit_count: 1,
        };
        db.insert_history(&entry, 1700000000000 + i as u64);
    }

    let elapsed = start_time.elapsed();
    let throughput = num_entries as f64 / elapsed.as_secs_f64();

    println!("Write throughput: {:.0} entries/sec", throughput);
    assert!(throughput > 5000.0, "Write throughput too low: {:.0} entries/sec", throughput);
}

#[test]
fn test_database_wipe() {
    let mut db = BrowserDB::new();

    let entry = HistoryEntry {
        timestamp: 1700000000000,
        url_hash: 0xdeadbeefcafebabe,
        title: "Test Entry".to_string(),
        visit_count: 1,
    };

    db.insert_history(&entry, 1700000000000);

    let retrieved = db.get_history(0xdeadbeefcafebabe).expect("Failed to get entry");
    assert!(retrieved.is_some());

    db.wipe().expect("Failed to wipe database");

    let stats = db.stats();
    assert_eq!(stats.total_entries, 0);
}

#[test]
fn test_database_mode_switching() {
    let mut db = BrowserDB::new();

    db.set_mode(DatabaseMode::Persistent).expect("Failed to set persistent mode");

    db.set_mode(DatabaseMode::Ultra).expect("Failed to set ultra mode");
}

#[test]
fn mode_switch_discards_every_table() {
    let mut db = BrowserDB::new();
    let cookie = CookieEntry::new(9, "sid".to_string(), "v".to_string(), 77);
    db.insert_cookie(&cookie, 1);
    let cache_entry = CacheEntry {
        url_hash: 3,
        headers: "h".to_string(),
        body: vec![1],
        etag: "e".to_string(),
        last_modified: 4,
    };
    db.insert_cache(&cache_entry, 2);
    db.set_mode(DatabaseMode::Ultra).unwrap();
    db.set_mode(DatabaseMode::Persistent).unwrap();
    // The switch replaced every table with a fresh empty one.
    let ckey = browserdb::records::cookie_key(9, "sid");
    assert!(db.get_raw(TableType::Cookies, &ckey).is_none());
    let hkey = browserdb::records::history_key(3);
    assert!(db.get_raw(TableType::Cache, &hkey).is_none());
}

#[test]
fn test_error_handling() {
    let db = BrowserDB::new();

    let result = db.get_history(0x9999999999999999);
    assert!(result.is_ok());
}

#[test]
fn corrupt_stored_bytes_surface_as_errors() {
    let mut db = BrowserDB::new();
    // Bytes that are no history encoding under a history key.
    let key = browserdb::records::history_key(5);
    db.put_raw(TableType::History, key, vec![1, 2, 3], 1);
    assert_eq!(db.get_history(5).unwrap_err(), DbError::Corrupt);
    // Bytes that are no UTF-8 under a settings key.
    db.put_raw(TableType::Settings, b"broken".to_vec(), vec![0xff, 0xfe], 2);
    assert_eq!(db.get_setting("broken").unwrap_err(), DbError::Corrupt);
}

#[test]
fn history_survives_typed_round_trip() {
    let mut db = BrowserDB::new();
    let entry = HistoryEntry {
        timestamp: 340282366920938463463374607431768211455,
        url_hash: 77,
        title: "ünïcodé títle — §".to_string(),
        visit_count: 4294967295,
    };
    db.insert_history(&entry, 9);
    let back = db.get_history(77).unwrap().unwrap();
    assert_eq!(back.timestamp, entry.timestamp);
    assert_eq!(back.url_hash, entry.url_hash);
    assert_eq!(back.title, entry.title);
    assert_eq!(back.visit_count, entry.visit_count);
}

#[test]
fn newer_facade_write_wins() {
    let mut db = BrowserDB::new();
    db.set_setting("theme", "light", 1);
    db.set_setting("theme", "dark", 2);
    assert_eq!(db.get_setting("theme").unwrap(), Some("dark".to_string()));
}

#[test]
fn history_entry_builder_and_visits() {
    let mut e = HistoryEntry::new(42, "page".to_string(), 1000);
    assert_eq!(e.timestamp, 1000);
    assert_eq!(e.visit_count, 1);
    e.increment_visit(2000);
    assert_eq!(e.visit_count, 2);
    assert_eq!(e.timestamp, 2000);
}

#[test]
fn setting_entry_builder() {
    let s = SettingEntry::new("k".to_string(), "v".to_string());
    assert_eq!(s.key, "k");
    assert_eq!(s.value, "v");
}

#[test]
fn stress_sequential_inserts_and_random_lookups() {
    let mut db = BrowserDB::new();
    let count: u64 = 10000;
    for i in 0..count {
        let entry = HistoryEntry {
            timestamp: i as u128,
            url_hash: i as u128,
            title: format!("page {}", i),
            visit_count: 1,
        };
        db.insert_history(&entry, i);
    }
    // A fixed linear-congruential walk stands in for uniform random probes.
    let mut x: u64 = 12345;
    for _ in 0..1000 {
        x = x.wrapping_mul(6364136223846793005).wrapping_add(1442695040888963407);
        let probe = (x >> 16) % count;
        let got = db.get_history(probe as u128).unwrap().expect("every written key must read");
        assert_eq!(got.url_hash, probe as u128);
    }
}
