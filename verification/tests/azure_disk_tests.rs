use ironclad_db::azure_disk::{
    after_read, after_write, check_write, find_field, page_range, parse_connection_string,
    retry_delay_ms, PageRange, ReadReply, ReadStep, WriteStep, AZURE_PAGE_ALIGNMENT, DISK_BACKOFF_MS,
    DISK_RETRIES, MAX_BLOB_SIZE,
};
use ironclad_db::error::IronCladError;

#[test]
fn constants_have_their_documented_values() {
    assert_eq!(AZURE_PAGE_ALIGNMENT, 512);
    assert_eq!(MAX_BLOB_SIZE, 100 * 1024 * 1024 * 1024);
    assert_eq!(DISK_RETRIES, 3);
    assert_eq!(DISK_BACKOFF_MS, 100);
}

#[test]
fn page_ranges_are_4096_bytes_apart() {
    assert_eq!(page_range(0).unwrap(), PageRange { offset: 0, end: 4095 });
    assert_eq!(page_range(1).unwrap(), PageRange { offset: 4096, end: 8191 });
    assert_eq!(page_range(1000).unwrap(), PageRange { offset: 4_096_000, end: 4_100_095 });
}

#[test]
fn pages_beyond_the_first_size_of_the_blob_have_a_range() {
    let first_outside = MAX_BLOB_SIZE / 4096;
    let range = page_range(first_outside).unwrap();
    assert_eq!(range.offset, MAX_BLOB_SIZE);
    assert_eq!(range.end, MAX_BLOB_SIZE + 4095);
}

#[test]
fn last_page_with_64_bit_offsets_has_a_range() {
    let last = (u64::MAX - 4095) / 4096;
    assert_eq!(last, (1 << 52) - 1);
    let range = page_range(last).unwrap();
    assert_eq!(range.offset, u64::MAX - 4095);
    assert_eq!(range.end, u64::MAX);
    assert_eq!(range.offset % 512, 0);
}

#[test]
fn page_without_64_bit_offsets_is_not_found() {
    for page_id in [1u64 << 52, (1u64 << 52) + 1, u64::MAX] {
        match page_range(page_id) {
            Err(IronCladError::PageNotFound { page_id: id }) => assert_eq!(id, page_id),
            other => panic!("unexpected result: {:?}", other),
        }
    }
}

#[test]
fn disk_retry_delays_follow_the_backoff() {
    assert_eq!(retry_delay_ms(0), None);
    assert_eq!(retry_delay_ms(1), Some(100));
    assert_eq!(retry_delay_ms(2), Some(200));
    assert_eq!(retry_delay_ms(3), Some(300));
    assert_eq!(retry_delay_ms(4), None);
}

#[test]
fn page_of_the_right_size_ends_the_read() {
    match after_read(7, 0, ReadReply::Page(vec![7u8; 4096])) {
        ReadStep::Done(Ok(page)) => assert_eq!(page, vec![7u8; 4096]),
        other => panic!("unexpected step: {:?}", other),
    }
}

#[test]
fn page_of_the_wrong_size_is_an_invalid_page() {
    match after_read(7, 0, ReadReply::Page(vec![7u8; 512])) {
        ReadStep::Done(Err(IronCladError::InvalidPageFormat { reason })) => {
            assert_eq!(reason, "Expected 4096 bytes, got 512")
        }
        other => panic!("unexpected step: {:?}", other),
    }
    match after_read(7, 0, ReadReply::Page(Vec::new())) {
        ReadStep::Done(Err(IronCladError::InvalidPageFormat { reason })) => {
            assert_eq!(reason, "Expected 4096 bytes, got 0")
        }
        other => panic!("unexpected step: {:?}", other),
    }
}

#[test]
fn failed_read_is_retried_three_times() {
    let failure = || ReadReply::Failed("timeout".to_string());
    assert!(matches!(after_read(7, 0, failure()), ReadStep::Retry { delay_ms: 100 }));
    assert!(matches!(after_read(7, 1, failure()), ReadStep::Retry { delay_ms: 200 }));
    assert!(matches!(after_read(7, 2, failure()), ReadStep::Retry { delay_ms: 300 }));
    match after_read(7, 3, failure()) {
        ReadStep::Done(Err(IronCladError::AzureError(text))) => {
            assert_eq!(text, "Failed to read page 7 after 3 attempts: timeout")
        }
        other => panic!("unexpected step: {:?}", other),
    }
}

#[test]
fn read_without_an_answer_fails_at_once() {
    match after_read(1234567890123, 0, ReadReply::Nothing) {
        ReadStep::Done(Err(IronCladError::AzureError(text))) => {
            assert_eq!(text, "Failed to read page 1234567890123 after 0 attempts: No data received")
        }
        other => panic!("unexpected step: {:?}", other),
    }
    match after_read(u64::MAX, 2, ReadReply::Nothing) {
        ReadStep::Done(Err(IronCladError::AzureError(text))) => assert_eq!(
            text,
            "Failed to read page 18446744073709551615 after 2 attempts: No data received"
        ),
        other => panic!("unexpected step: {:?}", other),
    }
}

#[test]
fn unreadable_body_fails_at_once() {
    match after_read(7, 0, ReadReply::BodyFailed("connection reset".to_string())) {
        ReadStep::Done(Err(IronCladError::AzureStorageError(text))) => {
            assert_eq!(text, "connection reset")
        }
        other => panic!("unexpected step: {:?}", other),
    }
}

#[test]
fn failed_write_is_retried_three_times() {
    let failure = || Err("timeout".to_string());
    assert!(matches!(after_write(9, 0, Ok(())), WriteStep::Done(Ok(()))));
    assert!(matches!(after_write(9, 0, failure()), WriteStep::Retry { delay_ms: 100 }));
    assert!(matches!(after_write(9, 1, failure()), WriteStep::Retry { delay_ms: 200 }));
    assert!(matches!(after_write(9, 2, failure()), WriteStep::Retry { delay_ms: 300 }));
    match after_write(9, 3, failure()) {
        WriteStep::Done(Err(IronCladError::AzureError(text))) => {
            assert_eq!(text, "Failed to write page 9 after 3 attempts: timeout")
        }
        other => panic!("unexpected step: {:?}", other),
    }
}

#[test]
fn only_whole_pages_are_written() {
    assert!(check_write(&[0u8; 4096]).is_ok());
    match check_write(&[0u8; 100]) {
        Err(IronCladError::ConfigError(text)) => assert_eq!(text, "Page size must be 4096, got 100"),
        other => panic!("unexpected result: {:?}", other),
    }
    match check_write(&[0u8; 4095]) {
        Err(IronCladError::ConfigError(text)) => {
            assert_eq!(text, "Page size must be 4096, got 4095")
        }
        other => panic!("unexpected result: {:?}", other),
    }
    match check_write(&[]) {
        Err(IronCladError::ConfigError(text)) => assert_eq!(text, "Page size must be 4096, got 0"),
        other => panic!("unexpected result: {:?}", other),
    }
}

#[test]
fn fields_are_found_by_name() {
    let text = b"DefaultEndpointsProtocol=https;AccountName=devstoreaccount1;AccountKey=mock;";
    assert_eq!(find_field(text, b"AccountName"), Some(b"devstoreaccount1".to_vec()));
    assert_eq!(find_field(text, b"AccountKey"), Some(b"mock".to_vec()));
    assert_eq!(find_field(text, b"DefaultEndpointsProtocol"), Some(b"https".to_vec()));
    assert_eq!(find_field(text, b"BlobEndpoint"), None);
    // a name is the whole of what stands before the `=`
    assert_eq!(find_field(text, b"Account"), None);
    assert_eq!(find_field(text, b"Name"), None);
    // the first field of a name counts
    assert_eq!(find_field(b"a=1;a=2", b"a"), Some(b"1".to_vec()));
    // values may be empty and may hold `=`
    assert_eq!(find_field(b"a=;b=x=y", b"a"), Some(Vec::new()));
    assert_eq!(find_field(b"a=;b=x=y", b"b"), Some(b"x=y".to_vec()));
    assert_eq!(find_field(b"", b"a"), None);
    assert_eq!(find_field(b"a", b"a"), None);
}

#[test]
fn connection_string_of_an_account() {
    let info = parse_connection_string(
        "DefaultEndpointsProtocol=https;AccountName=devstoreaccount1;AccountKey=mock;",
    )
    .unwrap();
    assert_eq!(info.account_name, "devstoreaccount1");
    assert_eq!(info.account_key, "mock");
    assert_eq!(info.blob_endpoint, None);
}

#[test]
fn connection_string_with_an_endpoint() {
    let info = parse_connection_string(
        "AccountName=dev;AccountKey=k==;BlobEndpoint=http://127.0.0.1:10000/dev",
    )
    .unwrap();
    assert_eq!(info.account_name, "dev");
    assert_eq!(info.account_key, "k==");
    assert_eq!(info.blob_endpoint, Some("http://127.0.0.1:10000/dev".to_string()));
}

#[test]
fn connection_string_without_account_name_is_refused() {
    match parse_connection_string("AccountKey=mock") {
        Err(IronCladError::ConfigError(text)) => {
            assert_eq!(text, "Missing AccountName in connection string")
        }
        other => panic!("unexpected result: {:?}", other),
    }
    assert!(parse_connection_string("test-connection").is_err());
}

#[test]
fn connection_string_without_account_key_is_refused() {
    match parse_connection_string("AccountName=dev") {
        Err(IronCladError::ConfigError(text)) => {
            assert_eq!(text, "Missing AccountKey in connection string")
        }
        other => panic!("unexpected result: {:?}", other),
    }
}
