use std::collections::HashMap;

use ironclad_db::error::IronCladError;
use ironclad_db::kvstore::{Action, Event, KVStore, Outcome};
use ironclad_db::page::{decode_page, PAGE_SIZE};
use ironclad_db::wal::WalEntry;
use ironclad_db::log_format::encode_record;

/// A page store and an append log in memory, with switches to make them fail.
struct Device {
    pages: HashMap<u64, Vec<u8>>,
    log: Vec<u8>,
    failing_appends: u32,
    failing_writes: u32,
    failing_reads: u32,
    delays: Vec<u64>,
    appends: usize,
    page_writes: Vec<u64>,
    page_reads: Vec<u64>,
    flushes: usize,
    resets: usize,
}

impl Device {
    fn new() -> Device {
        Device {
            pages: HashMap::new(),
            log: Vec::new(),
            failing_appends: 0,
            failing_writes: 0,
            failing_reads: 0,
            delays: Vec::new(),
            appends: 0,
            page_writes: Vec::new(),
            page_reads: Vec::new(),
            flushes: 0,
            resets: 0,
        }
    }

    fn perform(&mut self, action: Action) -> Result<Event, Outcome> {
        Ok(match action {
            Action::Done(outcome) => return Err(outcome),
            Action::AppendLog { line, delay_ms } => {
                self.delays.push(delay_ms);
                if self.failing_appends > 0 {
                    self.failing_appends -= 1;
                    Event::LogAppended(Err(IronCladError::IoError("append failed".to_string())))
                } else {
                    self.appends += 1;
                    self.log.extend_from_slice(&line);
                    Event::LogAppended(Ok(()))
                }
            }
            Action::ReadLog => Event::LogRead(Ok(self.log.clone())),
            Action::ResetLog => {
                self.resets += 1;
                self.log.clear();
                Event::LogReset(Ok(()))
            }
            Action::ReadPage { page_id } => {
                self.page_reads.push(page_id);
                if self.failing_reads > 0 {
                    self.failing_reads -= 1;
                    Event::PageRead(Err(IronCladError::AzureError("read failed".to_string())))
                } else {
                    match self.pages.get(&page_id) {
                        Some(page) => Event::PageRead(Ok(page.clone())),
                        None => Event::PageRead(Err(IronCladError::PageNotFound { page_id })),
                    }
                }
            }
            Action::WritePage { page_id, data } => {
                if self.failing_writes > 0 {
                    self.failing_writes -= 1;
                    Event::PageWritten(Err(IronCladError::AzureError("write failed".to_string())))
                } else {
                    assert_eq!(data.len(), PAGE_SIZE);
                    self.page_writes.push(page_id);
                    self.pages.insert(page_id, data);
                    Event::PageWritten(Ok(()))
                }
            }
            Action::FlushStore => {
                self.flushes += 1;
                Event::StoreFlushed(Ok(()))
            }
        })
    }
}

/// An engine together with the device it runs on.
struct Harness {
    store: KVStore,
    device: Device,
}

impl Harness {
    fn new(connection: &str) -> Harness {
        Harness { store: KVStore::new(connection), device: Device::new() }
    }

    fn with_frames(frames: usize) -> Harness {
        Harness { store: KVStore::with_frames("test-connection", frames), device: Device::new() }
    }

    /// A new engine on the device of `self`: what a restart after a crash sees.
    fn restart(self, frames: usize) -> Harness {
        let mut next =
            Harness { store: KVStore::with_frames("test-connection", frames), device: self.device };
        match next.recover() {
            Ok(_) => {}
            Err(e) => panic!("recovery failed: {:?}", e),
        }
        next
    }

    fn drive(&mut self, first: Action) -> Outcome {
        let mut action = first;
        loop {
            match self.device.perform(action) {
                Ok(event) => action = self.store.resume(event),
                Err(outcome) => return outcome,
            }
        }
    }

    fn set(&mut self, key: &str, value: &str) -> Result<(), IronCladError> {
        let first = self.store.set(key, value);
        match self.drive(first) {
            Outcome::Stored => Ok(()),
            Outcome::Failed(e) => Err(e),
            other => panic!("unexpected outcome of set: {:?}", other),
        }
    }

    fn get(&mut self, key: &str) -> Result<Option<String>, IronCladError> {
        let first = self.store.get(key);
        match self.drive(first) {
            Outcome::Value(value) => Ok(value),
            Outcome::Failed(e) => Err(e),
            other => panic!("unexpected outcome of get: {:?}", other),
        }
    }

    fn delete(&mut self, key: &str) -> Result<bool, IronCladError> {
        let first = self.store.delete(key);
        match self.drive(first) {
            Outcome::Deleted(found) => Ok(found),
            Outcome::Failed(e) => Err(e),
            other => panic!("unexpected outcome of delete: {:?}", other),
        }
    }

    fn scan(&mut self) -> Result<Vec<(String, String)>, IronCladError> {
        let first = self.store.scan();
        match self.drive(first) {
            Outcome::Entries(entries) => Ok(entries),
            Outcome::Failed(e) => Err(e),
            other => panic!("unexpected outcome of scan: {:?}", other),
        }
    }

    fn flush(&mut self) -> Result<(), IronCladError> {
        let first = self.store.flush();
        match self.drive(first) {
            Outcome::Flushed => Ok(()),
            Outcome::Failed(e) => Err(e),
            other => panic!("unexpected outcome of flush: {:?}", other),
        }
    }

    fn checkpoint(&mut self) -> Result<(), IronCladError> {
        let first = self.store.checkpoint();
        match self.drive(first) {
            Outcome::Checkpointed => Ok(()),
            Outcome::Failed(e) => Err(e),
            other => panic!("unexpected outcome of checkpoint: {:?}", other),
        }
    }

    fn recover(&mut self) -> Result<usize, IronCladError> {
        let first = self.store.recover();
        match self.drive(first) {
            Outcome::Recovered(count) => Ok(count),
            Outcome::Failed(e) => Err(e),
            other => panic!("unexpected outcome of recover: {:?}", other),
        }
    }
}

#[test]
fn test_kvstore_set_and_get() {
    let mut store = Harness::new("test-connection");

    store.set("user:1", "Alice").unwrap();

    let value = store.get("user:1").unwrap();
    assert_eq!(value, Some("Alice".to_string()));
}

#[test]
fn test_kvstore_get_nonexistent() {
    let mut store = Harness::new("test-connection");

    let value = store.get("nonexistent").unwrap();
    assert_eq!(value, None);
}

#[test]
fn test_kvstore_delete() {
    let mut store = Harness::new("test-connection");

    store.set("user:1", "Alice").unwrap();

    let deleted = store.delete("user:1").unwrap();
    assert!(deleted);

    let value = store.get("user:1").unwrap();
    assert_eq!(value, None);
}

#[test]
fn test_kvstore_delete_nonexistent() {
    let mut store = Harness::new("test-connection");

    let deleted = store.delete("nonexistent").unwrap();
    assert!(!deleted);
}

#[test]
fn test_kvstore_update() {
    let mut store = Harness::new("test-connection");

    store.set("user:1", "Alice").unwrap();
    store.set("user:1", "Bob").unwrap();

    let value = store.get("user:1").unwrap();
    assert_eq!(value, Some("Bob".to_string()));
}

#[test]
fn test_kvstore_multiple_keys() {
    let mut store = Harness::new("test-connection");

    store.set("user:1", "Alice").unwrap();
    store.set("user:2", "Bob").unwrap();
    store.set("user:3", "Charlie").unwrap();

    assert_eq!(store.get("user:1").unwrap(), Some("Alice".to_string()));
    assert_eq!(store.get("user:2").unwrap(), Some("Bob".to_string()));
    assert_eq!(store.get("user:3").unwrap(), Some("Charlie".to_string()));
}

#[test]
fn test_kvstore_scan() {
    let mut store = Harness::new("test-connection");

    store.set("user:1", "Alice").unwrap();
    store.set("user:2", "Bob").unwrap();

    let results = store.scan().unwrap();
    assert_eq!(results.len(), 2);
}

#[test]
fn test_kvstore_crash_recovery() {
    let mut store = Harness::new("test-connection");

    // Perform some operations
    store.set("user:1", "Alice").unwrap();
    store.set("user:2", "Bob").unwrap();
    store.delete("user:1").unwrap();

    // Simulate crash by creating a new store instance
    // The WAL should replay these operations
    let mut store2 = store.restart(64);

    // After recovery, user:1 should be deleted and user:2 should exist
    let stats = store2.store.stats();
    assert_eq!(stats.wal_entries, 3);
    assert_eq!(stats.num_keys, 1);
    assert_eq!(store2.get("user:1").unwrap(), None);
    assert_eq!(store2.get("user:2").unwrap(), Some("Bob".to_string()));
}

#[test]
fn test_kvstore_stats() {
    let mut store = Harness::new("test-connection");

    store.set("key1", "value1").unwrap();
    store.set("key2", "value2").unwrap();

    let stats = store.store.stats();
    assert_eq!(stats.num_keys, 2);
    assert!(stats.wal_entries > 0);
}

#[test]
fn test_kvstore_checkpoint() {
    let mut store = Harness::new("test-connection");

    store.set("key1", "value1").unwrap();
    store.set("key2", "value2").unwrap();

    // Create checkpoint
    store.checkpoint().unwrap();

    let stats = store.store.stats();
    // After checkpoint, WAL should be cleared
    assert_eq!(stats.wal_entries, 0);
}

#[test]
fn test_encode_decode_page() {
    let store = KVStore::new("test-connection");

    let key = "test-key";
    let value = "test-value";

    let encoded = store.encode_kv_page(key, value).unwrap();
    assert_eq!(encoded.len(), 4096);

    let decoded = store.decode_kv_page(&encoded).unwrap();
    assert_eq!(decoded, value);
}

#[test]
fn test_large_value() {
    let mut store = Harness::new("test-connection");

    let large_value = "x".repeat(1000);
    store.set("large-key", &large_value).unwrap();

    let retrieved = store.get("large-key").unwrap();
    assert_eq!(retrieved, Some(large_value));
}

#[test]
fn test_end_to_end_basic_operations() {
    let mut store = Harness::new("test-connection");

    // Test basic CRUD operations
    store.set("user:1", "Alice").unwrap();
    assert_eq!(store.get("user:1").unwrap(), Some("Alice".to_string()));

    store.set("user:2", "Bob").unwrap();
    assert_eq!(store.get("user:2").unwrap(), Some("Bob".to_string()));

    store.delete("user:1").unwrap();
    assert_eq!(store.get("user:1").unwrap(), None);
}

#[test]
fn test_end_to_end_durability() {
    // Test that WAL provides durability
    let mut store = Harness::new("test-durability");

    // Write some data
    store.set("key1", "value1").unwrap();
    store.set("key2", "value2").unwrap();
    store.set("key3", "value3").unwrap();

    let stats = store.store.stats();
    assert_eq!(stats.num_keys, 3);
    assert!(stats.wal_entries > 0); // WAL should have entries
    let mut expected = Vec::new();
    for (k, v) in [("key1", "value1"), ("key2", "value2"), ("key3", "value3")] {
        expected.extend_from_slice(&encode_record(&WalEntry::Put {
            key: k.to_string(),
            value: v.to_string(),
        }));
    }
    assert_eq!(store.device.log, expected);
}

#[test]
fn test_end_to_end_checkpoint_flow() {
    let mut store = Harness::new("test-checkpoint");

    // Add data
    for i in 0..10 {
        store.set(&format!("key:{}", i), &format!("value:{}", i)).unwrap();
    }

    let stats_before = store.store.stats();
    assert_eq!(stats_before.num_keys, 10);
    assert!(stats_before.wal_entries > 0);

    // Create checkpoint
    store.checkpoint().unwrap();

    let stats_after = store.store.stats();
    assert_eq!(stats_after.num_keys, 10); // Keys still there
    assert_eq!(stats_after.wal_entries, 0); // WAL cleared after checkpoint
}

#[test]
fn test_concurrent_operations() {
    let mut store = Harness::new("test-concurrent");

    // One operation runs at a time: the ten tasks take turns
    for i in 0..10 {
        let key = format!("concurrent:key:{}", i);
        let value = format!("value:{}", i);
        store.set(&key, &value).unwrap();

        let retrieved = store.get(&key).unwrap();
        assert_eq!(retrieved, Some(value));
    }

    let stats = store.store.stats();
    assert_eq!(stats.num_keys, 10);
}

#[test]
fn test_large_dataset() {
    let mut store = Harness::new("test-large");

    // Insert 1000 key-value pairs
    for i in 0..1000 {
        let key = format!("large:key:{:04}", i);
        let value = format!("large_value_{:04}", i);
        store.set(&key, &value).unwrap();
    }

    // Verify all data is retrievable
    for i in 0..1000 {
        let key = format!("large:key:{:04}", i);
        let expected_value = format!("large_value_{:04}", i);
        let actual_value = store.get(&key).unwrap();
        assert_eq!(actual_value, Some(expected_value));
    }

    let stats = store.store.stats();
    assert_eq!(stats.num_keys, 1000);
}

#[test]
fn test_scan_functionality() {
    let mut store = Harness::new("test-scan");

    // Insert test data
    store.set("apple", "fruit").unwrap();
    store.set("banana", "fruit").unwrap();
    store.set("carrot", "vegetable").unwrap();

    // Scan all entries
    let entries = store.scan().unwrap();
    assert_eq!(entries.len(), 3);

    // Verify all keys are present
    let keys: Vec<String> = entries.iter().map(|(k, _)| k.clone()).collect();
    assert!(keys.contains(&"apple".to_string()));
    assert!(keys.contains(&"banana".to_string()));
    assert!(keys.contains(&"carrot".to_string()));
}

#[test]
fn test_update_operations() {
    let mut store = Harness::new("test-update");

    // Initial set
    store.set("counter", "0").unwrap();
    assert_eq!(store.get("counter").unwrap(), Some("0".to_string()));

    // Multiple updates
    for i in 1..=10 {
        store.set("counter", &i.to_string()).unwrap();
    }

    // Verify final value
    assert_eq!(store.get("counter").unwrap(), Some("10".to_string()));
}

#[test]
fn test_delete_and_recreate() {
    let mut store = Harness::new("test-delete-recreate");

    // Create
    store.set("temp", "temporary").unwrap();
    assert_eq!(store.get("temp").unwrap(), Some("temporary".to_string()));

    // Delete
    store.delete("temp").unwrap();
    assert_eq!(store.get("temp").unwrap(), None);

    // Recreate with different value
    store.set("temp", "new_value").unwrap();
    assert_eq!(store.get("temp").unwrap(), Some("new_value".to_string()));
}

#[test]
fn test_empty_scan() {
    let mut store = Harness::new("test-empty-scan");

    // Scan empty store
    let entries = store.scan().unwrap();
    assert_eq!(entries.len(), 0);
}

#[test]
fn test_stats_accuracy() {
    let mut store = Harness::new("test-stats");

    // Initial stats
    let stats = store.store.stats();
    assert_eq!(stats.num_keys, 0);
    assert_eq!(stats.wal_entries, 0);

    // Add some data
    store.set("k1", "v1").unwrap();
    store.set("k2", "v2").unwrap();

    let stats = store.store.stats();
    assert_eq!(stats.num_keys, 2);
    assert!(stats.wal_entries >= 2);

    // Delete one
    store.delete("k1").unwrap();

    let stats = store.store.stats();
    assert_eq!(stats.num_keys, 1);
}

// ---------------------------------------------------------------------------
// Scenarios
// ---------------------------------------------------------------------------

#[test]
fn basic_crud() {
    let mut store = Harness::new("test-connection");
    store.set("name", "IronClad").unwrap();
    store.set("version", "1.0").unwrap();
    store.set("author", "Azure Team").unwrap();
    assert_eq!(store.get("name").unwrap(), Some("IronClad".to_string()));
    assert_eq!(store.get("version").unwrap(), Some("1.0".to_string()));
    assert_eq!(store.get("author").unwrap(), Some("Azure Team".to_string()));
    assert_eq!(store.get("nonexistent").unwrap(), None);
    store.flush().unwrap();
    // three dirty pages were written, then the barrier
    let mut written = store.device.page_writes.clone();
    written.sort();
    assert_eq!(written, vec![1, 2, 3]);
    assert_eq!(store.device.flushes, 1);
    assert_eq!(store.store.stats().frames_dirty, 0);
    // flush leaves the log alone
    assert_eq!(store.store.stats().wal_entries, 3);
    assert_eq!(store.device.resets, 0);
}

#[test]
fn update_overwrites() {
    let mut store = Harness::new("test-connection");
    store.set("counter", "0").unwrap();
    for i in 1..=10 {
        store.set("counter", &i.to_string()).unwrap();
    }
    assert_eq!(store.get("counter").unwrap(), Some("10".to_string()));
    // one key, one page, eleven log records
    let stats = store.store.stats();
    assert_eq!(stats.num_keys, 1);
    assert_eq!(stats.frames_used, 1);
    assert_eq!(stats.wal_entries, 11);
    assert_eq!(stats.wal_lsn, 11);
}

#[test]
fn scan_contents() {
    let mut store = Harness::new("test-connection");
    store.set("apple", "red").unwrap();
    store.set("banana", "yellow").unwrap();
    store.set("cherry", "red").unwrap();
    let mut entries = store.scan().unwrap();
    entries.sort();
    assert_eq!(
        entries,
        vec![
            ("apple".to_string(), "red".to_string()),
            ("banana".to_string(), "yellow".to_string()),
            ("cherry".to_string(), "red".to_string()),
        ]
    );
}

#[test]
fn delete_semantics() {
    let mut store = Harness::new("test-connection");
    store.set("temp", "data").unwrap();
    assert_eq!(store.delete("temp").unwrap(), true);
    assert_eq!(store.get("temp").unwrap(), None);
    assert_eq!(store.delete("none").unwrap(), false);
    // deleting twice: true, then false
    assert_eq!(store.delete("temp").unwrap(), false);
    assert_eq!(store.get("temp").unwrap(), None);
    // only the set and the first delete reached the log
    assert_eq!(store.store.stats().wal_entries, 2);
    assert_eq!(store.device.appends, 2);
}

#[test]
fn eviction_stress() {
    let mut store = Harness::with_frames(8);
    for i in 0..100 {
        store.set(&format!("k{}", i), &format!("v_{}", i)).unwrap();
    }
    let stats = store.store.stats();
    assert_eq!(stats.num_keys, 100);
    assert_eq!(stats.frames_used, 8);
    // the 92 pages that left the pool were written back first
    assert_eq!(store.device.page_writes.len(), 92);
    for i in 0..100 {
        assert_eq!(store.get(&format!("k{}", i)).unwrap(), Some(format!("v_{}", i)));
    }
    assert_eq!(store.store.stats().frames_used, 8);
}

#[test]
fn recovery_after_crash() {
    let mut store = Harness::new("test-connection");
    store.set("persistent_key", "persistent_value").unwrap();
    store.set("another_key", "another_value").unwrap();
    // the engine is dropped without a flush
    assert!(store.device.pages.is_empty());
    let mut store = store.restart(64);
    assert_eq!(store.get("persistent_key").unwrap(), Some("persistent_value".to_string()));
    assert_eq!(store.get("another_key").unwrap(), Some("another_value".to_string()));
    assert_eq!(store.store.stats().wal_lsn, 2);
    // the recovered pages are dirty and await a flush
    assert_eq!(store.store.stats().frames_dirty, 2);
}

// ---------------------------------------------------------------------------
// Properties on chosen values
// ---------------------------------------------------------------------------

#[test]
fn repeated_set_leaves_other_keys_alone() {
    let mut store = Harness::new("test-connection");
    store.set("a", "1").unwrap();
    store.set("b", "2").unwrap();
    store.set("a", "1").unwrap();
    store.set("a", "1").unwrap();
    assert_eq!(store.get("a").unwrap(), Some("1".to_string()));
    assert_eq!(store.get("b").unwrap(), Some("2".to_string()));
    assert_eq!(store.store.stats().num_keys, 2);
}

#[test]
fn sequence_numbers_of_two_sets_grow() {
    let mut store = Harness::new("test-connection");
    store.set("k", "first").unwrap();
    let first = store.store.stats().wal_lsn;
    store.set("k", "second").unwrap();
    let second = store.store.stats().wal_lsn;
    assert_eq!(first, 1);
    assert_eq!(second, 2);
    // the page carries the sequence number of the record that wrote it
    store.flush().unwrap();
    let record = decode_page(1, &store.device.pages[&1]).unwrap();
    assert_eq!(record.lsn, 2);
    assert_eq!(record.key, b"k".to_vec());
    assert_eq!(record.value, b"second".to_vec());
}

#[test]
fn new_keys_get_page_ids_from_one() {
    let mut store = Harness::new("test-connection");
    store.set("a", "1").unwrap();
    store.set("b", "2").unwrap();
    store.set("a", "3").unwrap();
    store.set("c", "4").unwrap();
    store.flush().unwrap();
    let mut ids: Vec<u64> = store.device.pages.keys().copied().collect();
    ids.sort();
    assert_eq!(ids, vec![1, 2, 3]);
    assert_eq!(decode_page(1, &store.device.pages[&1]).unwrap().value, b"3".to_vec());
    assert_eq!(decode_page(3, &store.device.pages[&3]).unwrap().key, b"c".to_vec());
}

#[test]
fn flipped_byte_on_the_device_reads_as_absence() {
    let mut store = Harness::with_frames(1);
    store.set("a", "alpha").unwrap();
    store.set("b", "beta").unwrap();
    // page 1 was written back when page 2 took the only frame
    assert_eq!(store.device.page_writes, vec![1]);
    store.device.pages.get_mut(&1).unwrap()[40] ^= 0x01;
    assert_eq!(store.get("a").unwrap(), None);
    assert_eq!(store.get("b").unwrap(), Some("beta".to_string()));
    // the next set repairs the key
    store.set("a", "again").unwrap();
    assert_eq!(store.get("a").unwrap(), Some("again".to_string()));
}

#[test]
fn page_missing_on_the_device_reads_as_absence() {
    let mut store = Harness::with_frames(1);
    store.set("a", "alpha").unwrap();
    store.set("b", "beta").unwrap();
    store.device.pages.clear();
    assert_eq!(store.get("a").unwrap(), None);
}

#[test]
fn short_page_from_the_device_reads_as_absence() {
    let mut store = Harness::with_frames(1);
    store.set("a", "alpha").unwrap();
    store.set("b", "beta").unwrap();
    store.device.pages.insert(1, vec![0u8; 100]);
    assert_eq!(store.get("a").unwrap(), None);
}

#[test]
fn read_error_of_the_device_fails_the_get() {
    let mut store = Harness::with_frames(1);
    store.set("a", "alpha").unwrap();
    store.set("b", "beta").unwrap();
    store.device.failing_reads = 1;
    match store.get("a") {
        Err(IronCladError::AzureError(text)) => assert_eq!(text, "read failed"),
        other => panic!("unexpected result: {:?}", other),
    }
    assert_eq!(store.get("a").unwrap(), Some("alpha".to_string()));
}

#[test]
fn key_of_another_record_in_the_page_reads_as_absence() {
    let mut store = Harness::with_frames(1);
    store.set("a", "alpha").unwrap();
    store.set("b", "beta").unwrap();
    store.flush().unwrap();
    let other = store.device.pages[&2].clone();
    store.device.pages.insert(1, other);
    assert_eq!(store.get("a").unwrap(), None);
}

#[test]
fn too_large_key_is_refused_before_anything_happens() {
    let mut store = Harness::new("test-connection");
    let key = "k".repeat(257);
    match store.set(&key, "v") {
        Err(IronCladError::KeyTooLarge { size, max }) => {
            assert_eq!(size, 257);
            assert_eq!(max, 256);
        }
        other => panic!("unexpected result: {:?}", other),
    }
    let stats = store.store.stats();
    assert_eq!(stats.num_keys, 0);
    assert_eq!(stats.wal_entries, 0);
    assert!(store.device.log.is_empty());
}

#[test]
fn too_large_value_is_refused_before_anything_happens() {
    let mut store = Harness::new("test-connection");
    let value = "v".repeat(4096 - 26 - 3 + 1);
    match store.set("key", &value) {
        Err(IronCladError::ValueTooLarge { size, max }) => {
            assert_eq!(size, 4068);
            assert_eq!(max, 4067);
        }
        other => panic!("unexpected result: {:?}", other),
    }
    assert!(store.device.log.is_empty());
    // one byte less fits
    store.set("key", &value[1..]).unwrap();
    assert_eq!(store.get("key").unwrap(), Some(value[1..].to_string()));
}

#[test]
fn text_beyond_ascii_round_trips() {
    let mut store = Harness::new("test-connection");
    store.set("clé", "valeur \"é\"\n\u{1F600}").unwrap();
    assert_eq!(store.get("clé").unwrap(), Some("valeur \"é\"\n\u{1F600}".to_string()));
    let mut store = store.restart(4);
    assert_eq!(store.get("clé").unwrap(), Some("valeur \"é\"\n\u{1F600}".to_string()));
}

#[test]
fn failed_append_is_retried_with_growing_pauses() {
    let mut store = Harness::new("test-connection");
    store.device.failing_appends = 3;
    store.set("k", "v").unwrap();
    assert_eq!(store.device.delays, vec![0, 50, 100, 150]);
    assert_eq!(store.get("k").unwrap(), Some("v".to_string()));
    assert_eq!(store.store.stats().wal_lsn, 1);
}

#[test]
fn append_that_keeps_failing_leaves_no_trace() {
    let mut store = Harness::new("test-connection");
    store.set("a", "1").unwrap();
    store.device.delays.clear();
    store.device.failing_appends = 6;
    match store.set("k", "v") {
        Err(IronCladError::IoError(text)) => assert_eq!(text, "append failed"),
        other => panic!("unexpected result: {:?}", other),
    }
    // one attempt and five retries
    assert_eq!(store.device.delays, vec![0, 50, 100, 150, 200, 250]);
    assert_eq!(store.get("k").unwrap(), None);
    let stats = store.store.stats();
    assert_eq!(stats.num_keys, 1);
    assert_eq!(stats.wal_lsn, 1);
    assert_eq!(stats.frames_used, 1);
    // the next append takes the sequence number that the failed one did not get
    store.set("k", "v").unwrap();
    assert_eq!(store.store.stats().wal_lsn, 2);
}

#[test]
fn failed_delete_append_keeps_the_key() {
    let mut store = Harness::new("test-connection");
    store.set("a", "1").unwrap();
    store.device.failing_appends = 6;
    assert!(store.delete("a").is_err());
    assert_eq!(store.get("a").unwrap(), Some("1".to_string()));
}

#[test]
fn failed_write_back_keeps_the_victim_dirty() {
    let mut store = Harness::with_frames(1);
    store.set("a", "alpha").unwrap();
    store.device.failing_writes = 1;
    match store.set("b", "beta") {
        Err(IronCladError::AzureError(text)) => assert_eq!(text, "write failed"),
        other => panic!("unexpected result: {:?}", other),
    }
    // the victim is resident and dirty still; the new key is not visible
    let stats = store.store.stats();
    assert_eq!(stats.frames_used, 1);
    assert_eq!(stats.frames_dirty, 1);
    assert_eq!(stats.num_keys, 1);
    assert_eq!(store.get("a").unwrap(), Some("alpha".to_string()));
    assert_eq!(store.get("b").unwrap(), None);
    // but its record is in the log, and recovery applies it
    let mut store = store.restart(4);
    assert_eq!(store.get("a").unwrap(), Some("alpha".to_string()));
    assert_eq!(store.get("b").unwrap(), Some("beta".to_string()));
}

#[test]
fn failed_flush_write_ends_the_flush() {
    let mut store = Harness::new("test-connection");
    store.set("a", "1").unwrap();
    store.set("b", "2").unwrap();
    store.device.failing_writes = 1;
    assert!(store.flush().is_err());
    assert_eq!(store.store.stats().frames_dirty, 2);
    store.flush().unwrap();
    assert_eq!(store.store.stats().frames_dirty, 0);
    assert_eq!(store.device.pages.len(), 2);
}

#[test]
fn checkpoint_flushes_then_logs_then_resets() {
    let mut store = Harness::new("test-connection");
    store.set("a", "1").unwrap();
    store.set("b", "2").unwrap();
    let mut seen = Vec::new();
    let mut action = store.store.checkpoint();
    loop {
        seen.push(match &action {
            Action::WritePage { .. } => "write",
            Action::FlushStore => "barrier",
            Action::AppendLog { line, .. } => {
                assert_eq!(line, b"{\"Checkpoint\":{\"lsn\":2}}\n");
                "append"
            }
            Action::ResetLog => "reset",
            Action::Done(_) => "done",
            _ => "other",
        });
        match store.device.perform(action) {
            Ok(event) => action = store.store.resume(event),
            Err(outcome) => {
                assert!(matches!(outcome, Outcome::Checkpointed));
                break;
            }
        }
    }
    assert_eq!(seen, vec!["write", "write", "barrier", "append", "reset", "done"]);
    assert!(store.device.log.is_empty());
    let stats = store.store.stats();
    assert_eq!(stats.wal_lsn, 0);
    assert_eq!(stats.wal_entries, 0);
    assert_eq!(stats.frames_dirty, 0);
    // sequence numbers start over
    store.set("c", "3").unwrap();
    assert_eq!(store.store.stats().wal_lsn, 1);
    // the page file alone serves the reads of the keys that the index holds
    assert_eq!(store.get("a").unwrap(), Some("1".to_string()));
}

#[test]
fn recovery_skips_corrupted_lines() {
    let mut store = Harness::new("test-connection");
    store.set("a", "1").unwrap();
    store.device.log.extend_from_slice(b"not a record\n\n");
    store.set("b", "2").unwrap();
    let mut store = store.restart(4);
    assert_eq!(store.store.stats().wal_lsn, 2);
    assert_eq!(store.get("a").unwrap(), Some("1".to_string()));
    assert_eq!(store.get("b").unwrap(), Some("2".to_string()));
}

#[test]
fn recovery_of_an_empty_log_recovers_nothing() {
    let mut store = Harness::new("test-connection");
    assert_eq!(store.recover().unwrap(), 0);
    assert_eq!(store.store.stats().num_keys, 0);
}

#[test]
fn recovery_replays_deletes_and_checkpoints() {
    let mut store = Harness::new("test-connection");
    for entry in [
        WalEntry::Put { key: "a".to_string(), value: "1".to_string() },
        WalEntry::Put { key: "b".to_string(), value: "2".to_string() },
        WalEntry::Checkpoint { lsn: 2 },
        WalEntry::Delete { key: "a".to_string() },
        WalEntry::Delete { key: "zzz".to_string() },
        WalEntry::Put { key: "c".to_string(), value: "3".to_string() },
    ] {
        store.device.log.extend_from_slice(&encode_record(&entry));
    }
    assert_eq!(store.recover().unwrap(), 6);
    assert_eq!(store.get("a").unwrap(), None);
    assert_eq!(store.get("b").unwrap(), Some("2".to_string()));
    assert_eq!(store.get("c").unwrap(), Some("3".to_string()));
    let stats = store.store.stats();
    assert_eq!(stats.num_keys, 2);
    assert_eq!(stats.wal_lsn, 6);
    // the next new key gets the page after the three that replay used
    store.set("d", "4").unwrap();
    store.flush().unwrap();
    assert_eq!(decode_page(4, &store.device.pages[&4]).unwrap().key, b"d".to_vec());
    // the replayed pages carry the sequence numbers of their records
    assert_eq!(decode_page(3, &store.device.pages[&3]).unwrap().lsn, 6);
}

#[test]
fn recovery_under_frame_pressure_writes_victims_back() {
    let mut store = Harness::new("test-connection");
    for i in 0..20 {
        store.set(&format!("k{}", i), &format!("v{}", i)).unwrap();
    }
    let mut store = store.restart(3);
    assert_eq!(store.store.stats().frames_used, 3);
    assert_eq!(store.device.page_writes.len(), 17);
    for i in 0..20 {
        assert_eq!(store.get(&format!("k{}", i)).unwrap(), Some(format!("v{}", i)));
    }
}

#[test]
fn recovery_stops_when_the_device_fails() {
    let mut store = Harness::new("test-connection");
    for i in 0..5 {
        store.set(&format!("k{}", i), "v").unwrap();
    }
    let mut next = Harness { store: KVStore::with_frames("c", 2), device: store.device };
    next.device.failing_writes = 1;
    match next.recover() {
        Err(IronCladError::AzureError(text)) => assert_eq!(text, "write failed"),
        other => panic!("unexpected result: {:?}", other),
    }
    assert!(!next.store.is_busy());
}

#[test]
fn scan_reads_missing_pages_from_the_device() {
    let mut store = Harness::with_frames(2);
    for i in 0..10 {
        store.set(&format!("k{}", i), &format!("v{}", i)).unwrap();
    }
    let mut entries = store.scan().unwrap();
    entries.sort();
    let mut expected: Vec<(String, String)> =
        (0..10).map(|i| (format!("k{}", i), format!("v{}", i))).collect();
    expected.sort();
    assert_eq!(entries, expected);
    assert!(!store.device.page_reads.is_empty());
}

#[test]
fn scan_leaves_out_keys_without_a_valid_page() {
    let mut store = Harness::with_frames(1);
    store.set("a", "1").unwrap();
    store.set("b", "2").unwrap();
    store.set("c", "3").unwrap();
    store.device.pages.get_mut(&1).unwrap()[100] ^= 0xff;
    let mut entries = store.scan().unwrap();
    entries.sort();
    assert_eq!(
        entries,
        vec![("b".to_string(), "2".to_string()), ("c".to_string(), "3".to_string())]
    );
}

#[test]
fn second_operation_is_refused_while_one_runs() {
    let mut store = KVStore::new("test-connection");
    let first = store.set("a", "1");
    assert!(matches!(first, Action::AppendLog { .. }));
    assert!(store.is_busy());
    for refused in [
        store.get("a"),
        store.set("b", "2"),
        store.delete("a"),
        store.scan(),
        store.flush(),
        store.checkpoint(),
        store.recover(),
    ] {
        match refused {
            Action::Done(Outcome::Failed(IronCladError::ConfigError(text))) => {
                assert_eq!(text, "an operation is in progress")
            }
            other => panic!("unexpected action: {:?}", other),
        }
    }
    // the running operation is not disturbed
    assert!(matches!(store.resume(Event::LogAppended(Ok(()))), Action::Done(Outcome::Stored)));
    assert!(!store.is_busy());
}

#[test]
fn stray_event_ends_the_running_operation() {
    let mut store = KVStore::new("test-connection");
    match store.resume(Event::StoreFlushed(Ok(()))) {
        Action::Done(Outcome::Failed(IronCladError::ConfigError(text))) => {
            assert_eq!(text, "no operation awaits this event")
        }
        other => panic!("unexpected action: {:?}", other),
    }
    let first = store.set("a", "1");
    assert!(matches!(first, Action::AppendLog { .. }));
    match store.resume(Event::PageWritten(Ok(()))) {
        Action::Done(Outcome::Failed(IronCladError::ConfigError(_))) => {}
        other => panic!("unexpected action: {:?}", other),
    }
    assert!(!store.is_busy());
    assert_eq!(store.stats().num_keys, 0);
}

#[test]
fn first_action_of_set_is_the_log_append() {
    let mut store = KVStore::new("test-connection");
    match store.set("user:1", "Alice") {
        Action::AppendLog { line, delay_ms } => {
            assert_eq!(line, b"{\"Set\":{\"key\":\"user:1\",\"value\":\"Alice\"}}\n".to_vec());
            assert_eq!(delay_ms, 0);
        }
        other => panic!("unexpected action: {:?}", other),
    }
    // nothing is visible before the append has succeeded
    assert_eq!(store.stats().num_keys, 0);
    assert_eq!(store.stats().frames_used, 0);
    assert_eq!(store.stats().wal_lsn, 0);
}

#[test]
fn stats_count_frames_and_mebibytes() {
    let mut store = Harness::with_frames(1024);
    let stats = store.store.stats();
    assert_eq!(stats.buffer_pool_total_mb, 4);
    assert_eq!(stats.buffer_pool_used_mb, 0);
    for i in 0..300 {
        store.set(&format!("k{}", i), "v").unwrap();
    }
    let stats = store.store.stats();
    assert_eq!(stats.frames_used, 300);
    assert_eq!(stats.frames_dirty, 300);
    assert_eq!(stats.frames_pinned, 0);
    assert_eq!(stats.buffer_pool_used_mb, 1);
    assert_eq!(KVStore::new("c").stats().buffer_pool_total_mb, 48);
}

#[test]
fn decode_kv_page_reports_why_a_page_is_no_record() {
    let store = KVStore::new("test-connection");
    let mut page = store.encode_kv_page("k", "v").unwrap();
    page[4000] = 1;
    assert!(matches!(
        store.decode_kv_page(&page),
        Err(IronCladError::ChecksumMismatch { page_id: 0, .. })
    ));
    assert!(matches!(
        store.decode_kv_page(&[0u8; 4096]),
        Err(IronCladError::InvalidPageFormat { .. })
    ));
    assert!(matches!(
        store.encode_kv_page(&"k".repeat(300), "v"),
        Err(IronCladError::KeyTooLarge { size: 300, max: 256 })
    ));
}

#[test]
fn value_that_is_not_text_is_a_utf8_error() {
    let store = KVStore::new("test-connection");
    let page = ironclad_db::page::encode_page(b"k", &[0xff, 0xfe], 1).unwrap();
    match store.decode_kv_page(&page) {
        Err(IronCladError::Utf8Error(text)) => {
            assert_eq!(text, String::from_utf8(vec![0xff, 0xfe]).unwrap_err().to_string());
        }
        other => panic!("unexpected result: {:?}", other),
    }
}

#[test]
fn value_that_is_not_text_reads_as_absence() {
    let mut store = Harness::with_frames(1);
    store.set("a", "alpha").unwrap();
    store.set("b", "beta").unwrap();
    let page = ironclad_db::page::encode_page(b"a", &[0xff, 0xfe], 1).unwrap();
    store.device.pages.insert(1, page);
    assert_eq!(store.get("a").unwrap(), None);
}

#[test]
fn engine_names_the_blob_of_its_log() {
    let store = KVStore::new("AccountName=dev;AccountKey=key");
    assert_eq!(store.wal().connection_string(), "AccountName=dev;AccountKey=key");
    assert_eq!(store.wal().container_name(), "ironclad-db");
    assert_eq!(store.wal().wal_blob_name(), "db-wal");
    assert_eq!(store.wal().current_lsn(), 0);
}

#[test]
fn get_leaves_no_page_pinned() {
    let mut store = Harness::with_frames(2);
    store.set("a", "1").unwrap();
    assert_eq!(store.get("a").unwrap(), Some("1".to_string()));
    assert_eq!(store.store.stats().frames_pinned, 0);
}
