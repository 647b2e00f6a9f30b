use eventstore::error::{CorruptReason, StoreError};
use eventstore::record::{
    assemble_record, checksum, crc_matches, encode_record, read_record_at, RecordRead,
};

#[test]
fn computes_checksum() {
    let payload = b"payload";
    let payload_len = 7u32.to_le_bytes();

    assert_eq!(checksum(&payload_len, payload), 0x0F6DE9B1);
}

#[test]
fn checksum_is_crc32c_of_both_parts_in_order() {
    // The CRC-32C check value of "123456789".
    assert_eq!(checksum(b"1234", b"56789"), 0xE306_9283);
    assert_eq!(checksum(b"", b"123456789"), 0xE306_9283);
    assert_ne!(checksum(b"56789", b"1234"), 0xE306_9283);
    assert_eq!(checksum(b"", b""), 0);
}

#[test]
fn crc_matches_only_the_right_checksum() {
    let len = 7u32.to_le_bytes();
    assert!(crc_matches(&len, b"payload", 0x0F6DE9B1));
    assert!(!crc_matches(&len, b"payload", 0x0F6DE9B0));
    assert!(!crc_matches(&len, b"paylaod", 0x0F6DE9B1));
}

#[test]
fn frames_a_payload_with_length_and_checksum() {
    let record = encode_record(b"payload").unwrap();
    assert_eq!(record.len(), 15);
    assert_eq!(&record[0..4], &7u32.to_le_bytes());
    assert_eq!(&record[4..8], &0x0F6DE9B1u32.to_le_bytes());
    assert_eq!(&record[8..], b"payload");
}

#[test]
fn frames_an_empty_payload() {
    let record = encode_record(b"").unwrap();
    assert_eq!(record.len(), 8);
    assert_eq!(&record[0..4], &[0, 0, 0, 0]);
    assert_eq!(read_record_at(&record, 0).unwrap(), Vec::<u8>::new());
}

#[test]
fn reads_back_what_was_framed_after_any_prefix() {
    let mut log: Vec<u8> = vec![1, 2, 3];
    let record = encode_record(b"abc").unwrap();
    log.extend_from_slice(&record);
    assert_eq!(read_record_at(&log, 3).unwrap(), b"abc".to_vec());
}

#[test]
fn read_steps_tell_range_errors_from_corruption() {
    assert!(matches!(
        RecordRead::begin(10, 3),
        Err(StoreError::OffsetOutOfRange { offset: 3, log_len: 10 })
    ));
    assert!(matches!(
        RecordRead::begin(10, u64::MAX),
        Err(StoreError::OffsetOutOfRange { offset: u64::MAX, log_len: 10 })
    ));
    let header = [5u8, 0, 0, 0, 1, 2, 3, 4];
    let read = RecordRead::begin(20, 2).unwrap();
    assert_eq!(read.header(&header).unwrap().payload_len(), 5);
    let read = RecordRead::begin(14, 2).unwrap();
    assert!(matches!(
        read.header(&header),
        Err(StoreError::Corrupt { offset: 2, reason: CorruptReason::LengthOutOfRange })
    ));

    let good = encode_record(b"hello").unwrap();
    let read = RecordRead::begin(13, 0).unwrap().header(&good[0..8]).unwrap();
    assert_eq!(read.finish(b"hello".to_vec()).unwrap(), b"hello".to_vec());
    let read = RecordRead::begin(22, 9).unwrap().header(&good[0..8]).unwrap();
    assert!(matches!(
        read.finish(b"hellp".to_vec()),
        Err(StoreError::Corrupt { offset: 9, reason: CorruptReason::ChecksumMismatch })
    ));
}

#[test]
fn assembles_a_record_around_a_given_checksum() {
    let record = assemble_record(b"ab", 0x0102_0304);
    assert_eq!(record, vec![2, 0, 0, 0, 4, 3, 2, 1, b'a', b'b']);
}
