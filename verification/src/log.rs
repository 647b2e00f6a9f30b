use vstd::bytes::*;
use vstd::prelude::*;
use vstd::slice::slice_subrange;

use crate::error::{CorruptReason, StoreError};
use crate::record::{
    bytes_result, encode_record, frame, lemma_frame_len, lemma_read_after_append,
    lemma_read_same_record_bytes, lemma_read_stable_under_append, read_record, read_record_at,
    stored_len, HEADER_LEN,
};

verus! {

/// The records that a scan of `log` from `cursor` reads, in order and each with its
/// offset, and the error that stops the scan before the end of the log, if one does.
pub open spec fn scan_from(log: Seq<u8>, cursor: int) -> (Seq<(u64, Seq<u8>)>, Option<StoreError>)
    decreases log.len() - cursor,
{
    if cursor < 0 || cursor >= log.len() || cursor > u64::MAX {
        (Seq::empty(), None)
    } else {
        match read_record(log, cursor as u64) {
            Err(e) => (Seq::empty(), Some(e)),
            Ok(p) => {
                let rest = scan_from(log, cursor + HEADER_LEN + p.len());
                (seq![(cursor as u64, p)] + rest.0, rest.1)
            },
        }
    }
}

/// The scan of a whole log, from offset 0.
pub open spec fn scan(log: Seq<u8>) -> (Seq<(u64, Seq<u8>)>, Option<StoreError>) {
    scan_from(log, 0)
}

/// A log is well formed when its records, read one after another from offset 0,
/// all verify and end exactly at its end.
pub open spec fn well_formed(log: Seq<u8>) -> bool {
    &&& log.len() <= u64::MAX
    &&& scan(log).1 is None
}

/// Whether the record whose read failed with `e` is the last thing in the file: its
/// header runs past the end of the file, or the payload its header declares reaches or
/// runs past the end of the file.
pub open spec fn fails_at_tail(file: Seq<u8>, e: StoreError) -> bool {
    match e {
        StoreError::OffsetOutOfRange { .. } => true,
        StoreError::Corrupt { offset, reason: CorruptReason::LengthOutOfRange } => offset
            + HEADER_LEN + stored_len(file, offset as int) >= file.len(),
        StoreError::Corrupt { offset, reason: CorruptReason::ChecksumMismatch } => offset
            + HEADER_LEN + stored_len(file, offset as int) >= file.len(),
        _ => false,
    }
}

/// What opening a file of bytes `file` makes of it. A scan that ends cleanly keeps the
/// whole file. A record that fails verification and is the last thing in the file (its
/// header, or the payload its header declares, reaches the end of the file) is a write
/// that never completed: the log ends where that record starts. The same failure with
/// bytes after the record is damage, and the file is refused.
pub open spec fn recover(file: Seq<u8>) -> Result<u64, StoreError> {
    match scan(file).1 {
        None => Ok(file.len() as u64),
        Some(e) => if fails_at_tail(file, e) {
            Ok(error_offset(e))
        } else {
            Err(e)
        },
    }
}

/// The offset that an error found by a scan names.
pub open spec fn error_offset(e: StoreError) -> u64 {
    match e {
        StoreError::Corrupt { offset, .. } => offset,
        StoreError::OffsetOutOfRange { offset, .. } => offset,
        _ => 0,
    }
}

/// A walk over the records of a log, from offset 0. It yields each record with its
/// offset; the first failure is yielded once, and nothing follows it.
#[derive(Debug)]
pub struct RecordIter {
    cursor: u64,
    done: bool,
}

impl RecordIter {
    /// The offset of the next record to read.
    pub closed spec fn position(&self) -> u64 {
        self.cursor
    }

    /// Whether a failure has ended the walk.
    pub closed spec fn finished(&self) -> bool {
        self.done
    }

    /// The offset of the next record to read in a log of `log_len` bytes, or `None` once
    /// the walk is over: it reached the end of the log, or a failure ended it.
    pub fn next_offset(&self, log_len: u64) -> (r: Option<u64>)
        ensures
            match r {
                Some(offset) => {
                    &&& !self.finished()
                    &&& self.position() < log_len
                    &&& offset == self.position()
                },
                None => self.finished() || self.position() >= log_len,
            },
    {
        if self.done || self.cursor >= log_len {
            None
        } else {
            Some(self.cursor)
        }
    }

    /// Takes the outcome of reading the record at the offset that `next_offset` gives:
    /// a record moves the walk on past it, and a failure ends the walk.
    pub fn accept(&mut self, read: Result<Vec<u8>, StoreError>) -> (r: Result<
        (u64, Vec<u8>),
        StoreError,
    >)
        requires
            !old(self).finished(),
            read matches Ok(p) ==> old(self).position() + HEADER_LEN + p@.len() <= u64::MAX,
        ensures
            match read {
                Ok(p) => {
                    &&& r matches Ok((o, v)) && o == old(self).position() && v@ == p@
                    &&& final(self).position() == old(self).position() + HEADER_LEN + p@.len()
                    &&& !final(self).finished()
                },
                Err(e) => {
                    &&& r == Err::<(u64, Vec<u8>), StoreError>(e)
                    &&& final(self).position() == old(self).position()
                    &&& final(self).finished()
                },
            },
    {
        let record_offset = self.cursor;
        match read {
            Err(err) => {
                self.done = true;
                Err(err)
            },
            Ok(content) => {
                self.cursor = self.cursor + HEADER_LEN + content.len() as u64;
                Ok((record_offset, content))
            },
        }
    }

    /// Reads the next record of the log whose bytes are `log`.
    pub fn next(&mut self, log: &[u8]) -> (r: Option<Result<(u64, Vec<u8>), StoreError>>)
        ensures
            ({
                let c = old(self).position();
                if old(self).finished() || c >= log@.len() {
                    &&& r is None
                    &&& final(self).position() == c
                    &&& final(self).finished() == old(self).finished()
                } else {
                    match read_record(log@, c) {
                        Ok(p) => {
                            &&& r matches Some(Ok((o, v))) && o == c && v@ == p
                            &&& final(self).position() == c + HEADER_LEN + p.len()
                            &&& !final(self).finished()
                        },
                        Err(e) => {
                            &&& r == Some(Err::<(u64, Vec<u8>), StoreError>(e))
                            &&& final(self).position() == c
                            &&& final(self).finished()
                        },
                    }
                }
            }),
    {
        match self.next_offset(log.len() as u64) {
            None => None,
            Some(offset) => {
                let read = read_record_at(log, offset);
                Some(self.accept(read))
            },
        }
    }
}

/// The record log: what it knows of its file is where the next record goes, which is
/// also the length of the part of the file that holds verified records.
#[derive(Clone, Copy, Debug)]
pub struct Log {
    write_offset: u64,
}

impl View for Log {
    type V = u64;

    closed spec fn view(&self) -> u64 {
        self.write_offset
    }
}

impl Log {
    /// Opens the log held in a file whose bytes are `file`: every record is verified from
    /// offset 0, and the log ends after the last one that passed when what follows it is a
    /// torn write. The file should be cut to `len()` bytes; a refused file stays as it is.
    pub fn open(file: &[u8]) -> (r: Result<Log, StoreError>)
        ensures
            match r {
                Ok(log) => recover(file@) == Ok::<u64, StoreError>(log@),
                Err(e) => recover(file@) == Err::<u64, StoreError>(e),
            },
            r matches Ok(log) ==> log@ <= file@.len() && well_formed(file@.take(log@ as int)),
            r matches Err(e) ==> e matches StoreError::Corrupt {
                reason: CorruptReason::ChecksumMismatch,
                ..
            },
    {
        let file_len = file.len();
        proof {
            lemma_recover_outcomes(file@);
        }
        let mut log = Log { write_offset: file_len as u64 };
        match log.recover_torn_tail(file) {
            Ok(()) => Ok(log),
            Err(e) => Err(e),
        }
    }

    /// The length of the log, which is the offset of the next record.
    pub fn len(&self) -> (r: u64)
        ensures
            r == self@,
    {
        self.write_offset
    }

    /// Frames `bytes` as the next record. Gives its offset and the bytes to write at the
    /// end of the file, and counts them as part of the log: callers that must only count
    /// a record once it is durable append to a copy and keep the copy after the write.
    pub fn append(&mut self, bytes: &[u8]) -> (r: Result<(u64, Vec<u8>), StoreError>)
        requires
            old(self)@ + HEADER_LEN + bytes@.len() <= u64::MAX,
        ensures
            match r {
                Ok((offset, record)) => {
                    &&& bytes@.len() <= u32::MAX
                    &&& offset == old(self)@
                    &&& record@ == frame(bytes@)
                    &&& record@.len() == HEADER_LEN + bytes@.len()
                    &&& final(self)@ == old(self)@ + record@.len()
                },
                Err(e) => {
                    &&& bytes@.len() > u32::MAX
                    &&& e == (StoreError::PayloadTooLarge { len: bytes.len() })
                    &&& final(self)@ == old(self)@
                },
            },
    {
        let record_offset = self.write_offset;
        match encode_record(bytes) {
            Err(e) => Err(e),
            Ok(record) => {
                self.write_offset = self.write_offset + record.len() as u64;
                Ok((record_offset, record))
            },
        }
    }

    /// Reads the record at `offset`, given the bytes `log` that the file holds over the
    /// length of the log.
    pub fn read_at(&self, log: &[u8], offset: u64) -> (r: Result<Vec<u8>, StoreError>)
        requires
            log@.len() == self@,
        ensures
            bytes_result(r) == read_record(log@, offset),
    {
        read_record_at(log, offset)
    }

    /// A walk over the records of the log from offset 0.
    pub fn iter(&self) -> (r: RecordIter)
        ensures
            r.position() == 0,
            !r.finished(),
    {
        RecordIter { cursor: 0, done: false }
    }

    /// Scans the file from offset 0 and moves the end of the log back to where a torn
    /// write starts: a record that fails verification and is the last thing in the file.
    /// A failing record with bytes after it is refused.
    fn recover_torn_tail(&mut self, file: &[u8]) -> (r: Result<(), StoreError>)
        requires
            old(self)@ == file@.len(),
        ensures
            match r {
                Ok(()) => recover(file@) == Ok::<u64, StoreError>(final(self)@),
                Err(e) => recover(file@) == Err::<u64, StoreError>(e),
            },
    {
        let file_len = file.len() as u64;
        match self.first_failure(file) {
            None => Ok(()),
            Some(err) => match err {
                StoreError::Corrupt { offset, reason: CorruptReason::LengthOutOfRange } => {
                    self.write_offset = offset;
                    Ok(())
                },
                StoreError::OffsetOutOfRange { offset, .. } => {
                    self.write_offset = offset;
                    Ok(())
                },
                StoreError::Corrupt { offset, reason: CorruptReason::ChecksumMismatch } => {
                    let start = offset as usize;
                    let field = slice_subrange(file, start, start + 4);
                    let len = u32_from_le_bytes(field);
                    if len as u64 >= file_len - offset - HEADER_LEN {
                        self.write_offset = offset;
                        Ok(())
                    } else {
                        Err(
                            StoreError::Corrupt {
                                offset,
                                reason: CorruptReason::ChecksumMismatch,
                            },
                        )
                    }
                },
                err => Err(err),
            },
        }
    }

    /// Walks the records of the file and gives the failure that stops the walk, if any.
    fn first_failure(&self, file: &[u8]) -> (r: Option<StoreError>)
        ensures
            r == scan(file@).1,
            r is Some ==> read_record(file@, error_offset(r->Some_0)) == Err::<Seq<u8>, StoreError>(
                r->Some_0,
            ),
    {
        let mut iter = self.iter();
        loop
            invariant
                scan(file@).1 == scan_from(file@, iter.position() as int).1,
                !iter.finished(),
            decreases file@.len() - iter.position(),
        {
            match iter.next(file) {
                Some(Ok(_)) => {},
                Some(Err(err)) => {
                    return Some(err);
                },
                None => {
                    return None;
                },
            }
        }
    }
}

/// A scan that reads a log cleanly from `cursor` reads the same records after bytes are
/// appended to the log, and then goes on into the appended bytes.
proof fn lemma_scan_extend(log: Seq<u8>, extra: Seq<u8>, cursor: int)
    requires
        0 <= cursor <= log.len(),
        log.len() <= u64::MAX,
        scan_from(log, cursor).1 is None,
    ensures
        scan_from(log + extra, cursor).0 == scan_from(log, cursor).0 + scan_from(
            log + extra,
            log.len() as int,
        ).0,
        scan_from(log + extra, cursor).1 == scan_from(log + extra, log.len() as int).1,
    decreases log.len() - cursor,
{
    let grown = log + extra;
    let tail = scan_from(grown, log.len() as int);
    if cursor == log.len() {
        assert(scan_from(log, cursor).0 + tail.0 =~= tail.0);
    } else {
        let p = read_record(log, cursor as u64)->Ok_0;
        lemma_read_stable_under_append(log, extra, cursor as u64);
        let next = cursor + HEADER_LEN + p.len();
        lemma_scan_extend(log, extra, next);
        assert(seq![(cursor as u64, p)] + scan_from(log, next).0 + tail.0 =~= seq![
            (cursor as u64, p),
        ] + (scan_from(log, next).0 + tail.0));
    }
}

/// Appending a record keeps a log well formed: the new log scans to the records of the
/// old one, followed by the new record at the old end.
pub proof fn lemma_append_well_formed(log: Seq<u8>, payload: Seq<u8>)
    requires
        well_formed(log),
        payload.len() <= u32::MAX,
        log.len() + HEADER_LEN + payload.len() <= u64::MAX,
    ensures
        well_formed(log + frame(payload)),
        scan(log + frame(payload)).0 == scan(log).0.push((log.len() as u64, payload)),
{
    let grown = log + frame(payload);
    lemma_frame_len(payload);
    lemma_read_after_append(log, payload);
    lemma_scan_extend(log, frame(payload), 0);
    let tail = scan_from(grown, log.len() as int);
    assert(scan_from(grown, grown.len() as int).0 =~= Seq::<(u64, Seq<u8>)>::empty());
    assert(tail.0 =~= seq![(log.len() as u64, payload)]);
    assert(scan(log).0 + tail.0 =~= scan(log).0.push((log.len() as u64, payload)));
}

/// Reopening a log that was written out completely keeps all of it.
pub proof fn lemma_recover_well_formed(log: Seq<u8>)
    requires
        well_formed(log),
    ensures
        recover(log) == Ok::<u64, StoreError>(log.len() as u64),
{
}

/// A torn write never happened: when writing stopped partway through the record that
/// frames `payload`, opening the file gives back the log as it was before that write.
pub proof fn lemma_recover_torn_write(log: Seq<u8>, payload: Seq<u8>, written: int)
    requires
        well_formed(log),
        payload.len() <= u32::MAX,
        log.len() + HEADER_LEN + payload.len() <= u64::MAX,
        0 <= written < HEADER_LEN + payload.len(),
    ensures
        recover(log + frame(payload).take(written)) == Ok::<u64, StoreError>(log.len() as u64),
{
    lemma_frame_len(payload);
    lemma_auto_spec_u32_to_from_le_bytes();
    let torn = frame(payload).take(written);
    let grown = log + torn;
    lemma_scan_extend(log, torn, 0);
    let o = log.len() as int;
    if written >= HEADER_LEN {
        assert(grown.subrange(o, o + 4) =~= spec_u32_to_le_bytes(payload.len() as u32));
        assert(stored_len(grown, o) == payload.len());
    }
}

/// The failure that stops a scan from `cursor` names an offset at or after `cursor`
/// and inside the log, and cutting the log there leaves the records before it, which
/// then scan cleanly.
proof fn lemma_scan_until_failure(file: Seq<u8>, cursor: int)
    requires
        0 <= cursor,
        file.len() <= u64::MAX,
        scan_from(file, cursor).1 is Some,
    ensures
        ({
            let n = error_offset(scan_from(file, cursor).1->Some_0) as int;
            &&& cursor <= n < file.len()
            &&& read_record(file, n as u64) == Err::<Seq<u8>, StoreError>(
                scan_from(file, cursor).1->Some_0,
            )
            &&& scan_from(file.take(n), cursor).0 == scan_from(file, cursor).0
            &&& scan_from(file.take(n), cursor).1 is None
        }),
    decreases file.len() - cursor,
{
    match read_record(file, cursor as u64) {
        Err(e) => {},
        Ok(p) => {
            let next = cursor + HEADER_LEN + p.len();
            lemma_scan_until_failure(file, next);
            let n = error_offset(scan_from(file, next).1->Some_0) as int;
            let cut = file.take(n);
            assert(file.subrange(cursor, next) =~= cut.subrange(cursor, next));
            lemma_read_same_record_bytes(file, cut, cursor as u64);
        },
    }
}

/// Opening keeps every record that verified: the log that recovery keeps is a prefix of
/// the file, is well formed, scans to the same records as the file, and opening it again
/// keeps all of it.
pub proof fn lemma_recover_keeps_records(file: Seq<u8>)
    requires
        file.len() <= u64::MAX,
        recover(file) is Ok,
    ensures
        ({
            let n = recover(file)->Ok_0 as int;
            &&& n <= file.len()
            &&& well_formed(file.take(n))
            &&& scan(file.take(n)).0 == scan(file).0
            &&& recover(file.take(n)) == Ok::<u64, StoreError>(n as u64)
        }),
{
    match scan(file).1 {
        None => {
            assert(file.take(file.len() as int) =~= file);
        },
        Some(e) => {
            lemma_scan_until_failure(file, 0);
        },
    }
}

/// Every record that a scan yields reads back, at its offset, as the payload the scan gave.
pub proof fn lemma_scan_records_read_back(log: Seq<u8>, cursor: int)
    requires
        0 <= cursor,
    ensures
        forall|k: int|
            0 <= k < scan_from(log, cursor).0.len() ==> read_record(
                log,
                (#[trigger] scan_from(log, cursor).0[k]).0,
            ) == Ok::<Seq<u8>, StoreError>(scan_from(log, cursor).0[k].1),
    decreases log.len() - cursor,
{
    if 0 <= cursor < log.len() && cursor <= u64::MAX {
        match read_record(log, cursor as u64) {
            Err(e) => {},
            Ok(p) => {
                let next = cursor + HEADER_LEN + p.len();
                lemma_scan_records_read_back(log, next);
                let items = scan_from(log, cursor).0;
                assert forall|k: int| 0 <= k < items.len() implies read_record(
                    log,
                    (#[trigger] items[k]).0,
                ) == Ok::<Seq<u8>, StoreError>(items[k].1) by {
                    if k > 0 {
                        assert(items[k] == scan_from(log, next).0[k - 1]);
                    }
                }
            },
        }
    }
}

/// Acknowledged records survive a crash: when writing stops partway through a record,
/// opening the file keeps exactly the log written before that record, and every record of
/// it reads back at its offset.
pub proof fn lemma_acknowledged_records_survive(log: Seq<u8>, payload: Seq<u8>, written: int)
    requires
        well_formed(log),
        payload.len() <= u32::MAX,
        log.len() + HEADER_LEN + payload.len() <= u64::MAX,
        0 <= written < HEADER_LEN + payload.len(),
    ensures
        ({
            let file = log + frame(payload).take(written);
            &&& recover(file) == Ok::<u64, StoreError>(log.len() as u64)
            &&& file.take(log.len() as int) == log
            &&& forall|k: int|
                0 <= k < scan(log).0.len() ==> read_record(
                    file.take(log.len() as int),
                    (#[trigger] scan(log).0[k]).0,
                ) == Ok::<Seq<u8>, StoreError>(scan(log).0[k].1)
        }),
{
    let file = log + frame(payload).take(written);
    lemma_recover_torn_write(log, payload, written);
    assert(file.take(log.len() as int) =~= log);
    lemma_scan_records_read_back(log, 0);
}

/// A record that fails verification at the end of the file is a torn write, whatever its
/// bytes hold: when a well-formed log is followed by bytes whose first record fails and
/// reaches the end of the file, opening the file gives back the log as it was. When bytes
/// follow the failing record, the file is refused with that record's failure.
pub proof fn lemma_recover_failed_record_after_log(log: Seq<u8>, tail: Seq<u8>)
    requires
        well_formed(log),
        (log + tail).len() <= u64::MAX,
        tail.len() > 0,
        read_record(log + tail, log.len() as u64) is Err,
    ensures
        ({
            let file = log + tail;
            let e = read_record(file, log.len() as u64)->Err_0;
            &&& fails_at_tail(file, e) ==> recover(file) == Ok::<u64, StoreError>(
                log.len() as u64,
            )
            &&& !fails_at_tail(file, e) ==> recover(file) == Err::<u64, StoreError>(e)
        }),
{
    lemma_scan_extend(log, tail, 0);
}

/// The records of a scan come in strictly increasing order of offset, none before the
/// offset the scan starts from.
pub proof fn lemma_scan_offsets_increase(log: Seq<u8>, cursor: int)
    requires
        0 <= cursor,
    ensures
        forall|i: int|
            0 <= i < scan_from(log, cursor).0.len() ==> (#[trigger] scan_from(log, cursor).0[i]).0
                >= cursor,
        forall|i: int, j: int|
            0 <= i < j < scan_from(log, cursor).0.len() ==> (#[trigger] scan_from(
                log,
                cursor,
            ).0[i]).0 < (#[trigger] scan_from(log, cursor).0[j]).0,
    decreases log.len() - cursor,
{
    if 0 <= cursor < log.len() && cursor <= u64::MAX {
        match read_record(log, cursor as u64) {
            Err(e) => {},
            Ok(p) => {
                let next = cursor + HEADER_LEN + p.len();
                lemma_scan_offsets_increase(log, next);
                let items = scan_from(log, cursor).0;
                let rest = scan_from(log, next).0;
                assert forall|i: int| 0 <= i < items.len() implies (#[trigger] items[i]).0
                    >= cursor by {
                    if i > 0 {
                        assert(items[i] == rest[i - 1]);
                    }
                }
                assert forall|i: int, j: int| 0 <= i < j < items.len() implies (
                #[trigger] items[i]).0 < (#[trigger] items[j]).0 by {
                    assert(items[j] == rest[j - 1]);
                    if i > 0 {
                        assert(items[i] == rest[i - 1]);
                    }
                }
            },
        }
    }
}

/// What opening can give: either a prefix of the file that scans cleanly to its end and
/// holds every record the scan of the file read, or a refusal, which is always a record
/// whose checksum fails with bytes after it. Opening never cuts a record that has bytes
/// after it: a log shorter than the file ends where a record fails that reaches the end of
/// the file (its header, or the payload its header declares, runs to or past the end).
pub proof fn lemma_recover_outcomes(file: Seq<u8>)
    requires
        file.len() <= u64::MAX,
    ensures
        recover(file) matches Ok(n) ==> {
            &&& n <= file.len()
            &&& well_formed(file.take(n as int))
            &&& scan(file.take(n as int)).0 == scan(file).0
        },
        recover(file) matches Ok(n) ==> n == file.len() || {
            &&& read_record(file, n) is Err
            &&& n + HEADER_LEN > file.len() || n + HEADER_LEN + spec_u32_from_le_bytes(
                file.subrange(n as int, n + 4),
            ) >= file.len()
        },
        recover(file) matches Err(e) ==> {
            &&& e matches StoreError::Corrupt { offset, reason: CorruptReason::ChecksumMismatch }
            &&& error_offset(e) + HEADER_LEN + stored_len(file, error_offset(e) as int)
                < file.len()
            &&& read_record(file, error_offset(e)) == Err::<Seq<u8>, StoreError>(e)
        },
{
    if recover(file) is Ok {
        lemma_recover_keeps_records(file);
    }
    if scan(file).1 is Some {
        lemma_scan_until_failure(file, 0);
    }
}

/// The bytes of a log after each of `payloads` is appended to it, one after another.
pub open spec fn append_all(log: Seq<u8>, payloads: Seq<Seq<u8>>) -> Seq<u8>
    decreases payloads.len(),
{
    if payloads.len() == 0 {
        log
    } else {
        append_all(log, payloads.drop_last()) + frame(payloads.last())
    }
}

/// The offset at which the `i`-th of `payloads` is appended.
pub open spec fn append_offset(log: Seq<u8>, payloads: Seq<Seq<u8>>, i: int) -> int {
    append_all(log, payloads.take(i)).len() as int
}

/// Every payload fits the record's `u32` length field.
pub open spec fn payloads_fit(payloads: Seq<Seq<u8>>) -> bool {
    forall|i: int| 0 <= i < payloads.len() ==> (#[trigger] payloads[i]).len() <= u32::MAX
}

/// Appends read back: after payloads are appended one after another to a well-formed log,
/// the log is well formed and each payload reads back at the offset where it was appended.
pub proof fn lemma_appends_read_back(log: Seq<u8>, payloads: Seq<Seq<u8>>)
    requires
        well_formed(log),
        payloads_fit(payloads),
        append_all(log, payloads).len() <= u64::MAX,
    ensures
        well_formed(append_all(log, payloads)),
        forall|i: int|
            0 <= i < payloads.len() ==> read_record(
                append_all(log, payloads),
                append_offset(log, payloads, i) as u64,
            ) == Ok::<Seq<u8>, StoreError>(#[trigger] payloads[i]),
    decreases payloads.len(),
{
    if payloads.len() > 0 {
        let prev = payloads.drop_last();
        let last = payloads.last();
        let before = append_all(log, prev);
        assert(payloads_fit(prev)) by {
            assert forall|i: int| 0 <= i < prev.len() implies (#[trigger] prev[i]).len()
                <= u32::MAX by {
                assert(prev[i] == payloads[i]);
            }
        }
        assert(last == payloads[payloads.len() - 1]);
        lemma_frame_len(last);
        lemma_appends_read_back(log, prev);
        lemma_append_well_formed(before, last);
        lemma_read_after_append(before, last);
        assert forall|i: int| 0 <= i < payloads.len() implies read_record(
            append_all(log, payloads),
            append_offset(log, payloads, i) as u64,
        ) == Ok::<Seq<u8>, StoreError>(#[trigger] payloads[i]) by {
            if i < prev.len() {
                assert(payloads.take(i) =~= prev.take(i));
                assert(payloads[i] == prev[i]);
                lemma_read_stable_under_append(
                    before,
                    frame(last),
                    append_offset(log, prev, i) as u64,
                );
            } else {
                assert(payloads.take(i) =~= prev);
            }
        }
    }
}

/// Acknowledged appends survive a crash: when payloads were appended one after another to a
/// well-formed log and writing then stopped partway through the next record, opening keeps
/// exactly the log with those appends, and each payload reads back at the offset where it
/// was appended.
pub proof fn lemma_acknowledged_appends_survive(
    log: Seq<u8>,
    payloads: Seq<Seq<u8>>,
    unfinished: Seq<u8>,
    written: int,
)
    requires
        well_formed(log),
        payloads_fit(payloads),
        unfinished.len() <= u32::MAX,
        append_all(log, payloads).len() + HEADER_LEN + unfinished.len() <= u64::MAX,
        0 <= written < HEADER_LEN + unfinished.len(),
    ensures
        ({
            let kept = append_all(log, payloads);
            let file = kept + frame(unfinished).take(written);
            &&& recover(file) == Ok::<u64, StoreError>(kept.len() as u64)
            &&& file.take(kept.len() as int) == kept
            &&& forall|i: int|
                0 <= i < payloads.len() ==> read_record(
                    file.take(kept.len() as int),
                    append_offset(log, payloads, i) as u64,
                ) == Ok::<Seq<u8>, StoreError>(#[trigger] payloads[i])
        }),
{
    let kept = append_all(log, payloads);
    lemma_appends_read_back(log, payloads);
    lemma_recover_torn_write(kept, unfinished, written);
    assert((kept + frame(unfinished).take(written)).take(kept.len() as int) =~= kept);
}

} // verus!
