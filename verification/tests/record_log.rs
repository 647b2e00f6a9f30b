use eventstore::error::{CorruptReason, StoreError};
use eventstore::log::{Log, RecordIter};

const HEADER_LEN: u64 = 8;

/// A file held in memory, with the log opened over it.
struct Disk {
    file: Vec<u8>,
    log: Log,
}

impl Disk {
    /// Opens the log over `file` and cuts the file where recovery ends the log.
    fn open(mut file: Vec<u8>) -> Result<Disk, StoreError> {
        let log = open_in_place(&mut file)?;
        Ok(Disk { file, log })
    }

    fn reopen(self) -> Result<Disk, StoreError> {
        Disk::open(self.file)
    }

    /// Appends a record: the bytes go to the file first, and the log counts them after.
    fn append(&mut self, bytes: &[u8]) -> Result<u64, StoreError> {
        let mut next = self.log;
        let (offset, record) = next.append(bytes)?;
        self.file.extend_from_slice(&record);
        self.log = next;
        Ok(offset)
    }

    fn read_at(&self, offset: u64) -> Result<Vec<u8>, StoreError> {
        self.log.read_at(&self.file[..self.log.len() as usize], offset)
    }

    fn next(&self, iter: &mut RecordIter) -> Option<Result<(u64, Vec<u8>), StoreError>> {
        iter.next(&self.file[..self.log.len() as usize])
    }
}

/// Opens the log over `file`, cutting the file only when the log opens.
fn open_in_place(file: &mut Vec<u8>) -> Result<Log, StoreError> {
    let log = Log::open(file)?;
    file.truncate(log.len() as usize);
    Ok(log)
}

fn build(records: &[&[u8]]) -> Result<Disk, StoreError> {
    let mut disk = Disk::open(Vec::new())?;
    for &record in records {
        disk.append(record)?;
    }
    Ok(disk)
}

fn build_and_corrupt_at_with(offset: usize, records: &[&[u8]]) -> Result<Disk, StoreError> {
    let mut disk = build(records)?;
    disk.file[offset] ^= 0xFF;
    Ok(disk)
}

fn build_and_corrupt_at(offset: usize) -> Result<Disk, StoreError> {
    build_and_corrupt_at_with(offset, &[b"payload"])
}

#[test]
fn valid_log_sets_write_offset_to_file_end() -> Result<(), StoreError> {
    let disk = build(&[b"payload"])?;
    let file_len = disk.file.len() as u64;

    assert_eq!(disk.reopen()?.log.len(), file_len);

    Ok(())
}

#[test]
fn corrupted_record_refuses_open() -> Result<(), StoreError> {
    // offset 19 lands in second record crc
    let disk = build_and_corrupt_at_with(19, &[b"payload", b"payload", b"payload"])?;
    let mut file = disk.file;
    let file_len_before_open = file.len();

    let err = open_in_place(&mut file).unwrap_err();
    assert!(
        matches!(
            err,
            StoreError::Corrupt {
                offset: 15,
                reason: CorruptReason::ChecksumMismatch
            }
        ),
        "unexpected error {err:?}"
    );

    assert_eq!(file.len(), file_len_before_open);

    Ok(())
}

#[test]
fn truncated_last_header_opens_and_trims() -> Result<(), StoreError> {
    let mut disk = build(&[b"payload", b"payload"])?;
    disk.file.truncate(18); // only write 3 bytes from last header then nothing

    let mut disk = disk.reopen()?;
    assert_eq!(disk.log.len(), 15);
    assert_eq!(disk.file.len(), 15);
    assert_eq!(disk.append(b"payload")?, 15);

    Ok(())
}

#[test]
fn truncated_last_content_opens_and_trims() -> Result<(), StoreError> {
    let mut disk = build(&[b"payload", b"payload"])?;
    disk.file.truncate(29); // remove 1 byte from the content

    let mut disk = disk.reopen()?;
    assert_eq!(disk.log.len(), 15);
    assert_eq!(disk.file.len(), 15);
    assert_eq!(disk.append(b"payload")?, 15);

    Ok(())
}

#[test]
fn append_twice_gives_correct_offsets() -> Result<(), StoreError> {
    let mut disk = Disk::open(Vec::new())?;

    let bytes = &[0u8; 7];

    let offset = disk.append(bytes)?;
    assert_eq!(offset, 0);

    let offset = disk.append(bytes)?;
    assert_eq!(offset, HEADER_LEN + bytes.len() as u64);

    Ok(())
}

#[test]
fn after_reopen_gives_correct_data_and_offset() -> Result<(), StoreError> {
    let mut disk = Disk::open(Vec::new())?;
    let bytes = &[1u8; 7];
    disk.append(bytes)?;

    let mut reopened = disk.reopen()?;
    assert_eq!(reopened.read_at(0)?, bytes);

    let offset = reopened.append(bytes)?;
    assert_eq!(offset, 15);
    assert_eq!(reopened.file.len(), 30);

    Ok(())
}

#[test]
fn correct_record() -> Result<(), StoreError> {
    let mut disk = Disk::open(Vec::new())?;
    let data = b"payload";

    // First test with offset = 0
    let offset = disk.append(data)?;
    assert_eq!(disk.read_at(offset)?, data);

    // Second test with offset > 0
    let offset = disk.append(data)?;
    assert_eq!(disk.read_at(offset)?, data);

    Ok(())
}

#[test]
fn corrupted_len_record_returns_error() -> Result<(), StoreError> {
    let disk = build_and_corrupt_at(0)?;

    let err = disk.read_at(0).unwrap_err();

    assert!(
        matches!(
            err,
            StoreError::Corrupt {
                offset: 0,
                reason: CorruptReason::LengthOutOfRange
            }
        ),
        "unexpected error: {err:?}"
    );

    Ok(())
}

#[test]
fn corrupted_crc_record_returns_error() -> Result<(), StoreError> {
    let disk = build_and_corrupt_at(4)?;

    let err = disk.read_at(0).unwrap_err();

    assert!(
        matches!(
            err,
            StoreError::Corrupt {
                offset: 0,
                reason: CorruptReason::ChecksumMismatch
            }
        ),
        "unexpected error: {err:?}"
    );

    Ok(())
}

#[test]
fn corrupted_content_record_returns_error() -> Result<(), StoreError> {
    let disk = build_and_corrupt_at(8)?;

    let err = disk.read_at(0).unwrap_err();

    assert!(
        matches!(
            err,
            StoreError::Corrupt {
                offset: 0,
                reason: CorruptReason::ChecksumMismatch
            }
        ),
        "unexpected error: {err:?}"
    );

    Ok(())
}

#[test]
fn offset_out_of_range_returns_error() -> Result<(), StoreError> {
    let disk = Disk::open(Vec::new())?;

    let err = disk.read_at(8).unwrap_err();

    assert!(
        matches!(
            err,
            StoreError::OffsetOutOfRange {
                offset: 8,
                log_len: 0
            }
        ),
        "unexpected error: {err:?}"
    );

    Ok(())
}

#[test]
fn over_empty_log_returns_none() -> Result<(), StoreError> {
    let disk = build(&[])?;

    assert!(disk.next(&mut disk.log.iter()).is_none());

    Ok(())
}

#[test]
fn over_3_records_returns_correct_contents() -> Result<(), StoreError> {
    let records: &[&[u8]] = &[b"first", b"second", b"third"];
    let offsets = [0, 13, 27];
    let disk = build(records)?;

    let mut iter = disk.log.iter();
    for (expected_record, expected_offset) in records.iter().zip(offsets) {
        let (offset, record) = disk.next(&mut iter).expect("iterator ended early")?;
        assert_eq!(record, *expected_record);
        assert_eq!(offset, expected_offset);
    }

    let next = disk.next(&mut iter);
    assert!(next.is_none(), "unexpected next: {next:?}");

    Ok(())
}

#[test]
fn over_records_with_2nd_corrupted_returns_valid_then_error() -> Result<(), StoreError> {
    let records: &[&[u8]] = &[b"first", b"second"];
    let disk = build_and_corrupt_at_with(17, records)?;
    let mut iter = disk.log.iter();

    assert_eq!(
        disk.next(&mut iter).expect("iterator ended early")?,
        (0u64, b"first".to_vec())
    );

    let err = disk.next(&mut iter).expect("expected error").unwrap_err();
    assert!(
        matches!(
            err,
            StoreError::Corrupt {
                offset: 13,
                reason: CorruptReason::ChecksumMismatch
            }
        ),
        "unexpected error: {err:?}"
    );

    let next = disk.next(&mut iter);
    assert!(next.is_none(), "unexpected next: {next:?}");

    Ok(())
}

#[test]
fn acknowledged_records_survive_process_kill() -> Result<(), StoreError> {
    let mut disk = Disk::open(Vec::new())?;
    let mut offsets = Vec::<u64>::new();

    for _ in 0..20 {
        offsets.push(disk.append(b"payload")?);
    }
    // The process dies partway through writing the next record.
    let unfinished = eventstore::record::encode_record(b"payload")?;
    disk.file.extend_from_slice(&unfinished[..11]);

    let reopened = disk.reopen()?;
    for expected_offset in offsets {
        let payload = reopened.read_at(expected_offset)?;
        assert_eq!(payload, b"payload");
    }

    Ok(())
}

#[test]
fn a_torn_write_of_any_length_is_cut_away() -> Result<(), StoreError> {
    let disk = build(&[b"one", b"two"])?;
    let clean = disk.file.clone();
    let unfinished = eventstore::record::encode_record(b"three")?;
    for written in 0..unfinished.len() {
        let mut file = clean.clone();
        file.extend_from_slice(&unfinished[..written]);
        let log = Log::open(&file)?;
        assert_eq!(log.len(), clean.len() as u64);
    }
    let mut file = clean.clone();
    file.extend_from_slice(&unfinished);
    assert_eq!(Log::open(&file)?.len(), file.len() as u64);
    Ok(())
}

#[test]
fn a_length_running_past_the_end_cuts_the_log_there() -> Result<(), StoreError> {
    // A corrupted length that points past the end of the file reads as a torn tail.
    let disk = build_and_corrupt_at_with(15, &[b"payload", b"payload"])?;
    let reopened = disk.reopen()?;
    assert_eq!(reopened.log.len(), 15);
    assert_eq!(reopened.read_at(0)?, b"payload");
    Ok(())
}

#[test]
fn a_checksum_failure_in_the_last_record_is_a_torn_write() -> Result<(), StoreError> {
    // Byte 23 is the first payload byte of the last record, which starts at 15.
    let mut disk = build_and_corrupt_at_with(23, &[b"payload", b"payload"])?;
    let log = open_in_place(&mut disk.file)?;
    assert_eq!(log.len(), 15);
    assert_eq!(disk.file.len(), 15);

    // A damaged checksum field in the last record is cut off the same way.
    let mut disk = build_and_corrupt_at_with(19, &[b"payload", b"payload"])?;
    let mut reopened = Disk::open(std::mem::take(&mut disk.file))?;
    assert_eq!(reopened.log.len(), 15);
    assert_eq!(reopened.read_at(0)?, b"payload");
    assert_eq!(reopened.append(b"again")?, 15);
    Ok(())
}

#[test]
fn a_checksum_failure_before_the_last_record_refuses_open() -> Result<(), StoreError> {
    // Byte 8 is the first payload byte of the first record; a record follows it.
    let mut disk = build_and_corrupt_at_with(8, &[b"payload", b"payload"])?;
    let err = open_in_place(&mut disk.file).unwrap_err();
    assert!(matches!(
        err,
        StoreError::Corrupt { offset: 0, reason: CorruptReason::ChecksumMismatch }
    ));
    assert_eq!(disk.file.len(), 30);

    // One stray byte after a damaged last record is enough to refuse.
    let mut disk = build_and_corrupt_at_with(23, &[b"payload", b"payload"])?;
    disk.file.push(0);
    assert!(open_in_place(&mut disk.file).is_err());
    assert_eq!(disk.file.len(), 31);
    Ok(())
}

#[test]
fn describes_errors() {
    let e = StoreError::Corrupt { offset: 26, reason: CorruptReason::ChecksumMismatch };
    assert_eq!(e.message(), "checksum mismatch at offset 26");
    let e = StoreError::Corrupt { offset: 0, reason: CorruptReason::LengthOutOfRange };
    assert_eq!(e.message(), "length out of range at offset 0");
    let e = StoreError::OffsetOutOfRange { offset: 8, log_len: 0 };
    assert_eq!(e.message(), "offset 8 out of range for log length 0");
    let e = StoreError::Corrupt {
        offset: 26,
        reason: CorruptReason::NonContiguousVersion { expected: 1, found: 12 },
    };
    assert_eq!(e.message(), "version 12 where version 1 was expected at offset 26");
    let e = StoreError::Corrupt {
        offset: 28,
        reason: CorruptReason::MalformedFrame(eventstore::event::MalformedEvent::TooShort),
    };
    assert_eq!(e.message(), "malformed frame: frame shorter than its header at offset 28");
    assert_eq!(StoreError::EmptyStreamId.message(), "stream id is empty");
    assert_eq!(
        StoreError::PayloadTooLarge { len: 5_000_000_000 }.message(),
        "payload too large (5000000000)"
    );
    assert_eq!(StoreError::StreamIdTooLong { len: 65536 }.message(), "stream id too long (65536)");
    let e = StoreError::from(std::io::Error::new(std::io::ErrorKind::Other, "disk gone"));
    assert!(matches!(e, StoreError::Io(_)));
    assert_eq!(e.message(), "disk gone");
    assert_eq!(
        StoreError::OffsetOutOfRange { offset: u64::MAX, log_len: 10 }.message(),
        "offset 18446744073709551615 out of range for log length 10"
    );
}

#[test]
fn a_walk_can_be_driven_one_read_at_a_time() -> Result<(), StoreError> {
    let disk = build(&[b"first", b"second"])?;
    let mut iter = disk.log.iter();
    let len = disk.log.len();

    let offset = iter.next_offset(len).expect("a first record");
    assert_eq!(offset, 0);
    assert_eq!(iter.accept(disk.read_at(offset))?, (0, b"first".to_vec()));

    let offset = iter.next_offset(len).expect("a second record");
    assert_eq!(offset, 13);
    let err = iter.accept(Err(StoreError::Corrupt {
        offset,
        reason: CorruptReason::ChecksumMismatch,
    }));
    assert!(err.is_err());
    assert_eq!(iter.next_offset(len), None);
    Ok(())
}
