use ironclad_db::log_format::{decode_record, encode_record};
use ironclad_db::wal::{WalEntry, WAL};

fn new_wal() -> WAL {
    WAL::new("test-connection", "test-container", "test-wal")
}

/// Appends `entry` to the blob `log` and records it in `wal`.
fn append(wal: &mut WAL, log: &mut Vec<u8>, entry: WalEntry) -> u64 {
    log.extend_from_slice(&encode_record(&entry));
    wal.append_entry(entry)
}

fn put(key: &str, value: &str) -> WalEntry {
    WalEntry::Put { key: key.to_string(), value: value.to_string() }
}

fn delete(key: &str) -> WalEntry {
    WalEntry::Delete { key: key.to_string() }
}

#[test]
fn test_wal_initialization() {
    let wal = new_wal();

    assert_eq!(wal.current_lsn(), 0);
    assert_eq!(wal.entry_count(), 0);
}

#[test]
fn test_append_set_entry() {
    let mut wal = new_wal();

    let entry = WalEntry::Put { key: "user:1".to_string(), value: "Alice".to_string() };

    let lsn = wal.append_entry(entry.clone());

    assert_eq!(lsn, 1);
    assert_eq!(wal.current_lsn(), 1);
    assert_eq!(wal.entry_count(), 1);

    let entries = wal.get_all_entries();
    assert_eq!(entries.len(), 1);
    assert_eq!(entries[0], entry);
}

#[test]
fn test_append_delete_entry() {
    let mut wal = new_wal();

    let entry = WalEntry::Delete { key: "user:2".to_string() };

    let lsn = wal.append_entry(entry.clone());

    assert_eq!(lsn, 1);
    assert_eq!(wal.entry_count(), 1);
}

#[test]
fn test_multiple_entries() {
    let mut wal = new_wal();

    // Add multiple entries
    for i in 0..10 {
        let entry = WalEntry::Put { key: format!("key:{}", i), value: format!("value:{}", i) };
        wal.append_entry(entry);
    }

    assert_eq!(wal.current_lsn(), 10);
    assert_eq!(wal.entry_count(), 10);
}

#[test]
fn test_replay() {
    let mut wal = new_wal();
    let mut log = Vec::new();

    // Add entries
    let entry1 = WalEntry::Put { key: "key1".to_string(), value: "value1".to_string() };
    let entry2 = WalEntry::Put { key: "key2".to_string(), value: "value2".to_string() };

    append(&mut wal, &mut log, entry1.clone());
    append(&mut wal, &mut log, entry2.clone());

    // Replay
    let replayed = wal.replay(&log);

    assert_eq!(replayed.len(), 2);
    assert_eq!(replayed[0], entry1);
    assert_eq!(replayed[1], entry2);
}

#[test]
fn test_checkpoint() {
    let mut wal = new_wal();

    // Add some entries
    for i in 0..5 {
        let entry = WalEntry::Put { key: format!("key:{}", i), value: format!("value:{}", i) };
        wal.append_entry(entry);
    }

    // Create checkpoint
    assert_eq!(wal.checkpoint_record(), WalEntry::Checkpoint { lsn: 5 });
    let checkpoint_lsn = wal.checkpoint();

    assert_eq!(checkpoint_lsn, 5);
    assert_eq!(wal.entry_count(), 6); // 5 entries + 1 checkpoint
    assert_eq!(wal.get_all_entries()[5], WalEntry::Checkpoint { lsn: 5 });
    assert_eq!(wal.current_lsn(), 6);
}

#[test]
fn test_clear_wal() {
    let mut wal = new_wal();

    // Add entries
    for i in 0..5 {
        let entry = WalEntry::Put { key: format!("key:{}", i), value: format!("value:{}", i) };
        wal.append_entry(entry);
    }

    assert_eq!(wal.entry_count(), 5);

    // Clear
    wal.clear();

    assert_eq!(wal.entry_count(), 0);
    assert_eq!(wal.current_lsn(), 0);
    // sequence numbers start over
    assert_eq!(wal.append_entry(put("k", "v")), 1);
}

#[test]
fn test_crash_recovery_scenario() {
    let mut wal = new_wal();
    let mut log = Vec::new();

    // Simulate normal operations
    append(&mut wal, &mut log, put("user:1", "Alice"));
    append(&mut wal, &mut log, put("user:2", "Bob"));
    append(&mut wal, &mut log, delete("user:1"));

    // Simulate crash and recovery
    let mut restarted = new_wal();
    let recovered = restarted.replay(&log);

    assert_eq!(recovered.len(), 3);
    assert_eq!(restarted.current_lsn(), 3);
    assert_eq!(restarted.entry_count(), 3);

    // Verify recovery operations
    match &recovered[0] {
        WalEntry::Put { key, value } => {
            assert_eq!(key, "user:1");
            assert_eq!(value, "Alice");
        }
        _ => panic!("Expected Set entry"),
    }

    match &recovered[2] {
        WalEntry::Delete { key } => {
            assert_eq!(key, "user:1");
        }
        _ => panic!("Expected Delete entry"),
    }
}

#[test]
fn test_wal_integration() {
    let mut wal = WAL::new("test-conn", "test-container", "test-wal");
    let mut log = Vec::new();

    // Test logging operations
    append(&mut wal, &mut log, put("k1", "v1"));
    append(&mut wal, &mut log, put("k2", "v2"));
    append(&mut wal, &mut log, delete("k1"));

    assert_eq!(wal.entry_count(), 3);

    // Test replay
    let entries = wal.replay(&log);
    assert_eq!(entries.len(), 3);
}

#[test]
fn wal_remembers_where_it_is_kept() {
    let wal = WAL::new("conn", "ironclad-db", "db-wal");
    assert_eq!(wal.connection_string(), "conn");
    assert_eq!(wal.container_name(), "ironclad-db");
    assert_eq!(wal.wal_blob_name(), "db-wal");
}

#[test]
fn sequence_numbers_grow_by_one() {
    let mut wal = new_wal();
    let mut last = 0;
    for i in 0..20 {
        let lsn = wal.append_entry(put(&format!("k{}", i), "v"));
        assert_eq!(lsn, last + 1);
        last = lsn;
    }
}

#[test]
fn retry_delays_follow_the_backoff() {
    assert_eq!(WAL::retry_delay_ms(0), None);
    assert_eq!(WAL::retry_delay_ms(1), Some(50));
    assert_eq!(WAL::retry_delay_ms(2), Some(100));
    assert_eq!(WAL::retry_delay_ms(5), Some(250));
    assert_eq!(WAL::retry_delay_ms(6), None);
    assert_eq!(WAL::retry_delay_ms(u32::MAX), None);
}

#[test]
fn record_lines_are_json() {
    assert_eq!(
        encode_record(&put("user:1", "Alice")),
        b"{\"Set\":{\"key\":\"user:1\",\"value\":\"Alice\"}}\n".to_vec()
    );
    assert_eq!(encode_record(&delete("user:1")), b"{\"Delete\":{\"key\":\"user:1\"}}\n".to_vec());
    assert_eq!(
        encode_record(&WalEntry::Checkpoint { lsn: 0 }),
        b"{\"Checkpoint\":{\"lsn\":0}}\n".to_vec()
    );
    assert_eq!(
        encode_record(&WalEntry::Checkpoint { lsn: u64::MAX }),
        b"{\"Checkpoint\":{\"lsn\":18446744073709551615}}\n".to_vec()
    );
}

#[test]
fn special_characters_are_escaped() {
    let entry = put("a\"b\\c", "line1\nline2\ttab\r\u{8}\u{c}\u{1}\u{1f} \u{7f}é\u{1F600}");
    let line = encode_record(&entry);
    let expected = "{\"Set\":{\"key\":\"a\\\"b\\\\c\",\"value\":\"line1\\nline2\\ttab\\r\\b\\f\\u0001\\u001f \u{7f}é\u{1F600}\"}}\n";
    assert_eq!(line, expected.as_bytes().to_vec());
    assert_eq!(line.iter().filter(|b| **b == b'\n').count(), 1);
    assert_eq!(decode_record(&line[..line.len() - 1]), Some(entry));
}

#[test]
fn decode_reads_back_every_kind_of_record() {
    for entry in [
        put("user:1", "Alice"),
        put("", ""),
        delete("user:1"),
        delete(""),
        WalEntry::Checkpoint { lsn: 0 },
        WalEntry::Checkpoint { lsn: 7 },
        WalEntry::Checkpoint { lsn: 1234567890 },
        WalEntry::Checkpoint { lsn: u64::MAX },
    ] {
        let line = encode_record(&entry);
        assert_eq!(decode_record(&line[..line.len() - 1]), Some(entry));
    }
}

#[test]
fn decode_refuses_what_is_no_record() {
    let bad: [&[u8]; 16] = [
        b"",
        b"{}",
        b"garbage",
        b"{\"Set\":{\"key\":\"a\",\"value\":\"b\"}}\n",
        b"{\"Set\":{\"key\":\"a\",\"value\":\"b\"}",
        b"{\"Set\":{\"key\":\"a\",\"value\":\"b\"}} ",
        b"{\"Set\":{\"key\":\"a\"}}",
        b"{\"Set\": {\"key\":\"a\",\"value\":\"b\"}}",
        b"{\"Set\":{\"key\":\"a\\x\",\"value\":\"b\"}}",
        b"{\"Set\":{\"key\":\"a\\u000a\",\"value\":\"b\"}}",
        b"{\"Set\":{\"key\":\"\xff\",\"value\":\"b\"}}",
        b"{\"Delete\":{\"key\":\"a\x01\"}}",
        b"{\"Checkpoint\":{\"lsn\":}}",
        b"{\"Checkpoint\":{\"lsn\":007}}",
        b"{\"Checkpoint\":{\"lsn\":18446744073709551616}}",
        b"{\"Checkpoint\":{\"lsn\":-1}}",
    ];
    for text in bad {
        assert_eq!(decode_record(text), None, "accepted {:?}", String::from_utf8_lossy(text));
    }
}

#[test]
fn replay_skips_blank_and_corrupted_lines() {
    let mut log = Vec::new();
    log.extend_from_slice(&encode_record(&put("a", "1")));
    log.extend_from_slice(b"\n");
    log.extend_from_slice(b"this is not a record\n");
    log.extend_from_slice(&encode_record(&delete("a")));
    log.extend_from_slice(b"{\"Set\":{\"key\":\"torn");
    let mut wal = new_wal();
    let entries = wal.replay(&log);
    assert_eq!(entries, vec![put("a", "1"), delete("a")]);
    assert_eq!(wal.current_lsn(), 2);
    assert_eq!(wal.entry_count(), 2);
}

#[test]
fn replay_of_an_empty_log_resets_the_counter() {
    let mut wal = new_wal();
    wal.append_entry(put("a", "1"));
    let entries = wal.replay(b"");
    assert!(entries.is_empty());
    assert_eq!(wal.current_lsn(), 0);
    assert_eq!(wal.entry_count(), 0);
}

#[test]
fn replay_accepts_a_last_line_without_end() {
    let mut log = encode_record(&put("a", "1"));
    let mut second = encode_record(&put("b", "2"));
    second.pop();
    log.extend_from_slice(&second);
    let mut wal = new_wal();
    assert_eq!(wal.replay(&log), vec![put("a", "1"), put("b", "2")]);
}
