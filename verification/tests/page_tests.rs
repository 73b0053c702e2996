use ironclad_db::error::IronCladError;
use ironclad_db::page::{
    crc32, decode_page, encode_page, zero_page, HEADER_SIZE, KEY_MAX, PAGE_MAGIC, PAGE_SIZE,
    PAGE_VERSION,
};

#[test]
fn crc32_of_the_standard_check_string() {
    assert_eq!(crc32(b"123456789"), 0xCBF4_3926);
}

#[test]
fn crc32_of_nothing_is_zero() {
    assert_eq!(crc32(b""), 0);
}

#[test]
fn crc32_of_one_letter() {
    assert_eq!(crc32(b"a"), 0xE8B7_BE43);
}

#[test]
fn encoded_page_has_the_documented_layout() {
    let page = encode_page(b"name", b"IronClad", 7).unwrap();
    assert_eq!(page.len(), PAGE_SIZE);
    assert_eq!(&page[0..4], &[0x4E, 0x4F, 0x52, 0x49]);
    assert_eq!(u32::from_le_bytes([page[0], page[1], page[2], page[3]]), PAGE_MAGIC);
    assert_eq!(u16::from_le_bytes([page[4], page[5]]), PAGE_VERSION);
    assert_eq!(
        u32::from_le_bytes([page[6], page[7], page[8], page[9]]),
        crc32(&page[10..])
    );
    assert_eq!(&page[10..18], &7u64.to_le_bytes());
    assert_eq!(&page[18..22], &4u32.to_le_bytes());
    assert_eq!(&page[22..26], &8u32.to_le_bytes());
    assert_eq!(&page[26..30], b"name");
    assert_eq!(&page[30..38], b"IronClad");
    assert!(page[38..].iter().all(|b| *b == 0));
}

#[test]
fn decode_returns_what_encode_was_given() {
    let page = encode_page(b"test-key", b"test-value", 0x0102_0304_0506_0708).unwrap();
    let record = decode_page(3, &page).unwrap();
    assert_eq!(record.key, b"test-key".to_vec());
    assert_eq!(record.value, b"test-value".to_vec());
    assert_eq!(record.lsn, 0x0102_0304_0506_0708);
}

#[test]
fn empty_key_and_value_round_trip() {
    let page = encode_page(b"", b"", 0).unwrap();
    let record = decode_page(1, &page).unwrap();
    assert!(record.key.is_empty());
    assert!(record.value.is_empty());
    assert_eq!(record.lsn, 0);
}

#[test]
fn largest_record_fills_the_page() {
    let key = vec![b'k'; KEY_MAX];
    let value = vec![b'v'; PAGE_SIZE - HEADER_SIZE - KEY_MAX];
    let page = encode_page(&key, &value, u64::MAX).unwrap();
    let record = decode_page(1, &page).unwrap();
    assert_eq!(record.key, key);
    assert_eq!(record.value, value);
    assert_eq!(record.lsn, u64::MAX);
}

#[test]
fn key_of_257_bytes_is_too_large() {
    let key = vec![b'k'; KEY_MAX + 1];
    match encode_page(&key, b"v", 1) {
        Err(IronCladError::KeyTooLarge { size, max }) => {
            assert_eq!(size, 257);
            assert_eq!(max, 256);
        }
        other => panic!("unexpected result: {:?}", other),
    }
}

#[test]
fn value_that_overflows_the_page_is_too_large() {
    let value = vec![b'v'; PAGE_SIZE - HEADER_SIZE - 4 + 1];
    match encode_page(b"name", &value, 1) {
        Err(IronCladError::ValueTooLarge { size, max }) => {
            assert_eq!(size, 4067);
            assert_eq!(max, 4066);
        }
        other => panic!("unexpected result: {:?}", other),
    }
}

#[test]
fn zero_page_is_not_a_record() {
    let page = zero_page();
    assert_eq!(page, vec![0u8; PAGE_SIZE]);
    match decode_page(9, &page) {
        Err(IronCladError::InvalidPageFormat { reason }) => {
            assert_eq!(reason, "bad magic number");
        }
        other => panic!("unexpected result: {:?}", other),
    }
}

#[test]
fn short_page_is_rejected() {
    match decode_page(9, &[0u8; 100]) {
        Err(IronCladError::InvalidPageFormat { reason }) => {
            assert_eq!(reason, "Invalid page size");
        }
        other => panic!("unexpected result: {:?}", other),
    }
}

#[test]
fn unknown_version_is_rejected() {
    let mut page = encode_page(b"k", b"v", 1).unwrap();
    page[4] = 2;
    match decode_page(9, &page) {
        Err(IronCladError::InvalidPageFormat { reason }) => {
            assert_eq!(reason, "unknown record version");
        }
        other => panic!("unexpected result: {:?}", other),
    }
}

#[test]
fn flipped_payload_byte_fails_the_checksum() {
    let mut page = encode_page(b"name", b"IronClad", 1).unwrap();
    let stored = u32::from_le_bytes([page[6], page[7], page[8], page[9]]);
    page[30] ^= 0x01;
    match decode_page(5, &page) {
        Err(IronCladError::ChecksumMismatch { page_id, expected, actual }) => {
            assert_eq!(page_id, 5);
            assert_eq!(expected, stored);
            assert_eq!(actual, crc32(&page[10..]));
            assert_ne!(expected, actual);
        }
        other => panic!("unexpected result: {:?}", other),
    }
}

#[test]
fn every_single_byte_change_is_detected() {
    let intact = encode_page(b"apple", b"red", 42).unwrap();
    for at in 0..PAGE_SIZE {
        let mut page = intact.clone();
        page[at] ^= 0x80;
        assert!(decode_page(1, &page).is_err(), "change at offset {} went unnoticed", at);
    }
}

#[test]
fn lengths_beyond_the_page_are_rejected() {
    let mut page = encode_page(b"k", b"v", 1).unwrap();
    page[18..22].copy_from_slice(&300u32.to_le_bytes());
    let sum = crc32(&page[10..]);
    page[6..10].copy_from_slice(&sum.to_le_bytes());
    match decode_page(9, &page) {
        Err(IronCladError::InvalidPageFormat { reason }) => {
            assert_eq!(reason, "record lengths out of range");
        }
        other => panic!("unexpected result: {:?}", other),
    }
}
