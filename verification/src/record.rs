use vstd::bytes::*;
use vstd::prelude::*;
use vstd::slice::{slice_subrange, slice_to_vec};

use crate::error::{CorruptReason, StoreError};

verus! {

/// Size of a record header: a `u32` payload length followed by a `u32` CRC.
pub const HEADER_LEN: u64 = 8;

/// One bit of the reflected CRC-32C register update: shift right, and fold in the
/// reflected Castagnoli polynomial (0x1EDC6F41 reflected is 0x82F63B78) when the bit that
/// fell out was set.
pub open spec fn crc32c_bit(reg: u32) -> u32 {
    if reg & 1u32 == 1u32 {
        (reg >> 1u32) ^ 0x82F6_3B78u32
    } else {
        reg >> 1u32
    }
}

/// `n` bit steps of the register.
pub open spec fn crc32c_bits(reg: u32, n: nat) -> u32
    decreases n,
{
    if n == 0 {
        reg
    } else {
        crc32c_bits(crc32c_bit(reg), (n - 1) as nat)
    }
}

/// The register after one more byte: the byte enters at the low end, then eight bit steps.
pub open spec fn crc32c_byte(reg: u32, byte: u8) -> u32 {
    crc32c_bits(reg ^ (byte as u32), 8)
}

/// The register after the bytes of `data`, one after another.
pub open spec fn crc32c_update(reg: u32, data: Seq<u8>) -> u32
    decreases data.len(),
{
    if data.len() == 0 {
        reg
    } else {
        crc32c_update(crc32c_byte(reg, data[0]), data.subrange(1, data.len() as int))
    }
}

/// The CRC-32C (Castagnoli; `CRC_32_ISCSI`: reflected in and out, register starting at
/// 0xFFFFFFFF, result xored with 0xFFFFFFFF) of a byte sequence.
pub open spec fn crc32c(data: Seq<u8>) -> u32 {
    crc32c_update(0xFFFF_FFFFu32, data) ^ 0xFFFF_FFFFu32
}

/// Calls the `crc` crate: `Crc::<u32>::new(&CRC_32_ISCSI)`, then `digest`, `update(first)`,
/// `update(second)` and `finalize`. Claimed: the result is the CRC-32C, as `crc32c` states
/// it, of `first` followed by `second`. In the crate's source `CRC_32_ISCSI` has width 32,
/// polynomial 0x1EDC6F41, reflected input and output, initial value and final xor
/// 0xFFFFFFFF; its table holds the eight reflected bit steps of each byte value, and each
/// `update` carries the running register on over the next bytes, so two updates give the
/// checksum of the concatenation.
#[verifier::external_body]
fn crc32c_of_parts(first: &[u8], second: &[u8]) -> (r: u32)
    ensures
        r == crc32c(first@ + second@),
{
    let crc = crc::Crc::<u32>::new(&crc::CRC_32_ISCSI);
    let mut digest = crc.digest();
    digest.update(first);
    digest.update(second);
    digest.finalize()
}

/// The checksum stored in a record header: CRC-32C over the length field, then the payload.
pub fn checksum(len_bytes: &[u8], bytes: &[u8]) -> (r: u32)
    ensures
        r == crc32c(len_bytes@ + bytes@),
{
    crc32c_of_parts(len_bytes, bytes)
}

/// Whether `crc` is the checksum of the length field and the payload.
pub fn crc_matches(len_bytes: &[u8], bytes: &[u8], crc: u32) -> (r: bool)
    ensures
        r == (crc == crc32c(len_bytes@ + bytes@)),
{
    crc == checksum(len_bytes, bytes)
}

/// The bytes of the record that frames `payload`: length, CRC, payload.
pub open spec fn frame(payload: Seq<u8>) -> Seq<u8>
    recommends
        payload.len() <= u32::MAX,
{
    let len_bytes = spec_u32_to_le_bytes(payload.len() as u32);
    len_bytes + spec_u32_to_le_bytes(crc32c(len_bytes + payload)) + payload
}

/// A record is its 8-byte header followed by its payload.
pub proof fn lemma_frame_len(payload: Seq<u8>)
    requires
        payload.len() <= u32::MAX,
    ensures
        frame(payload).len() == HEADER_LEN + payload.len(),
{
    lemma_auto_spec_u32_to_from_le_bytes();
}

/// Frames `bytes` as one record, or refuses a payload whose length does not fit the
/// `u32` length field.
pub fn encode_record(bytes: &[u8]) -> (r: Result<Vec<u8>, StoreError>)
    ensures
        match r {
            Ok(record) => {
                &&& bytes@.len() <= u32::MAX
                &&& record@ == frame(bytes@)
                &&& record@.len() == HEADER_LEN + bytes@.len()
                &&& record@.subrange(0, 4) == spec_u32_to_le_bytes(bytes@.len() as u32)
                &&& record@.subrange(4, 8) == spec_u32_to_le_bytes(
                    crc32c(spec_u32_to_le_bytes(bytes@.len() as u32) + bytes@),
                )
                &&& record@.subrange(8, HEADER_LEN + bytes@.len()) == bytes@
            },
            Err(e) => bytes@.len() > u32::MAX && e == (StoreError::PayloadTooLarge {
                len: bytes.len(),
            }),
        },
{
    if bytes.len() > 0xffff_ffffusize {
        return Err(StoreError::PayloadTooLarge { len: bytes.len() });
    }
    let len_bytes = u32_to_le_bytes(bytes.len() as u32);
    let crc = checksum(len_bytes.as_slice(), bytes);
    proof {
        lemma_record_layout(bytes@);
    }
    Ok(assemble_record(bytes, crc))
}

/// Lays out a record: the payload's length, the checksum `crc`, then the payload.
pub fn assemble_record(bytes: &[u8], crc: u32) -> (r: Vec<u8>)
    requires
        bytes@.len() <= u32::MAX,
    ensures
        r@ == spec_u32_to_le_bytes(bytes@.len() as u32) + spec_u32_to_le_bytes(crc) + bytes@,
        r@.len() == HEADER_LEN + bytes@.len(),
{
    let mut record = u32_to_le_bytes(bytes.len() as u32);
    let mut crc_bytes = u32_to_le_bytes(crc);
    let mut payload = slice_to_vec(bytes);
    record.append(&mut crc_bytes);
    record.append(&mut payload);
    record
}

/// The length field of the header at `offset`.
pub open spec fn len_field(log: Seq<u8>, offset: int) -> Seq<u8> {
    log.subrange(offset, offset + 4)
}

/// The payload length that the header at `offset` declares.
pub open spec fn stored_len(log: Seq<u8>, offset: int) -> int {
    spec_u32_from_le_bytes(len_field(log, offset)) as int
}

/// The checksum that the header at `offset` holds.
pub open spec fn stored_crc(log: Seq<u8>, offset: int) -> u32 {
    spec_u32_from_le_bytes(log.subrange(offset + 4, offset + 8))
}

/// The payload bytes of the record at `offset`, as long as its header declares.
pub open spec fn payload_at(log: Seq<u8>, offset: int) -> Seq<u8> {
    log.subrange(offset + 8, offset + 8 + stored_len(log, offset))
}

/// What reading the record at `offset` of the log `log` gives: the header must lie in
/// the log (else the offset is out of range), the declared payload must lie in the log
/// (else the record is corrupt: its length is out of range), and the checksum must
/// match the length field and the payload (else the record is corrupt).
pub open spec fn read_record(log: Seq<u8>, offset: u64) -> Result<Seq<u8>, StoreError> {
    if offset + HEADER_LEN > log.len() {
        Err(StoreError::OffsetOutOfRange { offset, log_len: log.len() as u64 })
    } else if offset + HEADER_LEN + stored_len(log, offset as int) > log.len() {
        Err(StoreError::Corrupt { offset, reason: CorruptReason::LengthOutOfRange })
    } else if stored_crc(log, offset as int) != crc32c(
        len_field(log, offset as int) + payload_at(log, offset as int),
    ) {
        Err(StoreError::Corrupt { offset, reason: CorruptReason::ChecksumMismatch })
    } else {
        Ok(payload_at(log, offset as int))
    }
}

/// A byte vector result seen as a byte sequence result.
pub open spec fn bytes_result(r: Result<Vec<u8>, StoreError>) -> Result<Seq<u8>, StoreError> {
    match r {
        Ok(v) => Ok(v@),
        Err(e) => Err(e),
    }
}

/// A read of the record at `offset` of a log of `log_len` bytes whose header has been
/// found to lie inside the log. Making one is the first step of a read; the header's
/// bytes are next.
#[derive(Debug)]
pub struct RecordRead {
    offset: u64,
    log_len: u64,
}

/// A read whose header has been decoded and whose declared payload has been found to lie
/// inside the log: what is left is to read the payload and check it.
#[derive(Debug)]
pub struct PayloadRead {
    offset: u64,
    header: Vec<u8>,
    len: u32,
}

impl RecordRead {
    /// Where the record starts.
    pub closed spec fn offset(&self) -> u64 {
        self.offset
    }

    /// The length of the log being read.
    pub closed spec fn log_len(&self) -> u64 {
        self.log_len
    }

    /// The first step: the whole header at `offset` must lie inside a log of `log_len`
    /// bytes. Failing that, the caller asked for an offset that addresses no record, which
    /// is an argument error and not corruption.
    pub fn begin(log_len: u64, offset: u64) -> (r: Result<RecordRead, StoreError>)
        ensures
            match r {
                Ok(read) => {
                    &&& read.offset() == offset
                    &&& read.log_len() == log_len
                    &&& offset + HEADER_LEN <= log_len
                },
                Err(e) => {
                    &&& offset + HEADER_LEN > log_len
                    &&& e == (StoreError::OffsetOutOfRange { offset, log_len })
                },
            },
    {
        if offset <= log_len && HEADER_LEN <= log_len - offset {
            Ok(RecordRead { offset, log_len })
        } else {
            Err(StoreError::OffsetOutOfRange { offset, log_len })
        }
    }

    /// The next step, given the 8 header bytes: before anything is allocated, the payload
    /// that the header declares must lie inside the log. A header that claims more is
    /// corruption at the record's offset.
    pub fn header(self, header: &[u8]) -> (r: Result<PayloadRead, StoreError>)
        requires
            header@.len() == HEADER_LEN,
            self.offset() + HEADER_LEN <= self.log_len(),
        ensures
            ({
                let len = spec_u32_from_le_bytes(header@.subrange(0, 4));
                match r {
                    Ok(read) => {
                        &&& read.offset() == self.offset()
                        &&& read.header() == header@
                        &&& read.len() == len
                        &&& self.offset() + HEADER_LEN + len <= self.log_len()
                    },
                    Err(e) => {
                        &&& self.offset() + HEADER_LEN + len > self.log_len()
                        &&& e == (StoreError::Corrupt {
                            offset: self.offset(),
                            reason: CorruptReason::LengthOutOfRange,
                        })
                    },
                }
            }),
    {
        let len = u32_from_le_bytes(slice_subrange(header, 0, 4));
        if (len as u64) <= self.log_len - self.offset - HEADER_LEN {
            Ok(PayloadRead { offset: self.offset, header: slice_to_vec(header), len })
        } else {
            Err(StoreError::Corrupt { offset: self.offset, reason: CorruptReason::LengthOutOfRange })
        }
    }
}

impl PayloadRead {
    /// Where the record starts.
    pub closed spec fn offset(&self) -> u64 {
        self.offset
    }

    /// The header's bytes.
    pub closed spec fn header(&self) -> Seq<u8> {
        self.header@
    }

    /// The payload length that the header declares.
    pub closed spec fn len(&self) -> u32 {
        self.len
    }

    /// How many payload bytes to read, from `offset + 8` on.
    pub fn payload_len(&self) -> (r: u32)
        ensures
            r == self.len(),
    {
        self.len
    }

    /// The last step: the payload is handed back only if the header's checksum matches
    /// the header's length field and the payload.
    pub fn finish(self, payload: Vec<u8>) -> (r: Result<Vec<u8>, StoreError>)
        requires
            self.header().len() == HEADER_LEN,
        ensures
            bytes_result(r) == if spec_u32_from_le_bytes(self.header().subrange(4, 8))
                == crc32c(self.header().subrange(0, 4) + payload@) {
                Ok::<Seq<u8>, StoreError>(payload@)
            } else {
                Err(
                    StoreError::Corrupt {
                        offset: self.offset(),
                        reason: CorruptReason::ChecksumMismatch,
                    },
                )
            },
    {
        let header = self.header.as_slice();
        let crc = u32_from_le_bytes(slice_subrange(header, 4, 8));
        if crc_matches(slice_subrange(header, 0, 4), payload.as_slice(), crc) {
            Ok(payload)
        } else {
            Err(StoreError::Corrupt { offset: self.offset, reason: CorruptReason::ChecksumMismatch })
        }
    }
}

/// Reads the record at `offset` of the log whose bytes are `log`, in the steps that
/// `RecordRead` and `PayloadRead` take, which are the order that `read_record` states.
pub fn read_record_at(log: &[u8], offset: u64) -> (r: Result<Vec<u8>, StoreError>)
    ensures
        bytes_result(r) == read_record(log@, offset),
{
    let read = match RecordRead::begin(log.len() as u64, offset) {
        Ok(read) => read,
        Err(e) => return Err(e),
    };
    let start = offset as usize;
    let header = slice_subrange(log, start, start + 8);
    proof {
        assert(header@.subrange(0, 4) =~= len_field(log@, offset as int));
        assert(header@.subrange(4, 8) =~= log@.subrange(offset + 4, offset + 8));
    }
    let payload_read = match read.header(header) {
        Ok(payload_read) => payload_read,
        Err(e) => return Err(e),
    };
    let end = start + 8 + payload_read.payload_len() as usize;
    let payload = slice_to_vec(slice_subrange(log, start + 8, end));
    payload_read.finish(payload)
}

/// What a read gives back of a write: right after the record that frames `payload` is
/// appended to any log, reading at the offset where it starts gives `payload`.
pub proof fn lemma_read_after_append(log: Seq<u8>, payload: Seq<u8>)
    requires
        payload.len() <= u32::MAX,
        log.len() <= u64::MAX,
    ensures
        read_record(log + frame(payload), log.len() as u64) == Ok::<Seq<u8>, StoreError>(payload),
{
    lemma_auto_spec_u32_to_from_le_bytes();
    let len_bytes = spec_u32_to_le_bytes(payload.len() as u32);
    let crc_bytes = spec_u32_to_le_bytes(crc32c(len_bytes + payload));
    let grown = log + frame(payload);
    let o = log.len() as int;
    assert(len_field(grown, o) =~= len_bytes);
    assert(grown.subrange(o + 4, o + 8) =~= crc_bytes);
    assert(payload_at(grown, o) =~= payload);
}

/// A read that succeeds depends only on the bytes of its own record: another log that
/// holds the same bytes over that record gives the same payload there.
pub proof fn lemma_read_same_record_bytes(a: Seq<u8>, b: Seq<u8>, offset: u64)
    requires
        read_record(a, offset) is Ok,
        offset + HEADER_LEN + stored_len(a, offset as int) <= b.len(),
        a.subrange(offset as int, offset + HEADER_LEN + stored_len(a, offset as int))
            == b.subrange(offset as int, offset + HEADER_LEN + stored_len(a, offset as int)),
    ensures
        read_record(b, offset) == read_record(a, offset),
{
    let o = offset as int;
    let end = o + 8 + stored_len(a, o);
    let ra = a.subrange(o, end);
    let rb = b.subrange(o, end);
    assert(len_field(a, o) =~= ra.subrange(0, 4));
    assert(len_field(b, o) =~= rb.subrange(0, 4));
    assert(a.subrange(o + 4, o + 8) =~= ra.subrange(4, 8));
    assert(b.subrange(o + 4, o + 8) =~= rb.subrange(4, 8));
    assert(stored_len(b, o) == stored_len(a, o));
    assert(payload_at(a, o) =~= ra.subrange(8, end - o));
    assert(payload_at(b, o) =~= rb.subrange(8, end - o));
}

/// Offsets already handed out do not move: appending bytes to a log never changes
/// what a successful read at an earlier offset gives.
pub proof fn lemma_read_stable_under_append(log: Seq<u8>, extra: Seq<u8>, offset: u64)
    requires
        read_record(log, offset) is Ok,
    ensures
        read_record(log + extra, offset) == read_record(log, offset),
{
    let o = offset as int;
    let end = o + 8 + stored_len(log, o);
    assert(log.subrange(o, end) =~= (log + extra).subrange(o, end));
    lemma_read_same_record_bytes(log, log + extra, offset);
}

/// The layout of the record that frames `payload`: the payload's length as a little-endian
/// `u32`, then the little-endian CRC-32C of that length field followed by the whole
/// payload, then the payload itself.
pub proof fn lemma_record_layout(payload: Seq<u8>)
    requires
        payload.len() <= u32::MAX,
    ensures
        frame(payload).len() == HEADER_LEN + payload.len(),
        frame(payload).subrange(0, 4) == spec_u32_to_le_bytes(payload.len() as u32),
        frame(payload).subrange(4, 8) == spec_u32_to_le_bytes(
            crc32c(spec_u32_to_le_bytes(payload.len() as u32) + payload),
        ),
        frame(payload).subrange(8, HEADER_LEN + payload.len()) == payload,
{
    lemma_auto_spec_u32_to_from_le_bytes();
    let len_bytes = spec_u32_to_le_bytes(payload.len() as u32);
    let crc_bytes = spec_u32_to_le_bytes(crc32c(len_bytes + payload));
    let f = frame(payload);
    assert(f.subrange(0, 4) =~= len_bytes);
    assert(f.subrange(4, 8) =~= crc_bytes);
    assert(f.subrange(8, HEADER_LEN + payload.len()) =~= payload);
}

/// A read checks the whole record: when the header at `offset` and the payload it
/// declares lie in the log, the read hands back that payload exactly when the stored
/// 32-bit checksum is the CRC-32C of the length field followed by every payload byte,
/// and is a checksum mismatch at `offset` otherwise.
pub proof fn lemma_read_checks_whole_record(log: Seq<u8>, offset: u64)
    requires
        offset + HEADER_LEN <= log.len(),
        offset + HEADER_LEN + spec_u32_from_le_bytes(log.subrange(offset as int, offset + 4))
            <= log.len(),
    ensures
        ({
            let o = offset as int;
            let len_bytes = log.subrange(o, o + 4);
            let payload = log.subrange(o + 8, o + 8 + spec_u32_from_le_bytes(len_bytes));
            let crc = spec_u32_from_le_bytes(log.subrange(o + 4, o + 8));
            &&& crc == crc32c(len_bytes + payload) ==> read_record(log, offset) == Ok::<
                Seq<u8>,
                StoreError,
            >(payload)
            &&& crc != crc32c(len_bytes + payload) ==> read_record(log, offset) == Err::<
                Seq<u8>,
                StoreError,
            >(StoreError::Corrupt { offset, reason: CorruptReason::ChecksumMismatch })
        }),
{
}

/// Damage to a payload is caught: when the record that framed `payload` is read back with
/// the payload bytes replaced by `damaged` (same length), the read succeeds only if the
/// CRC-32C over the length field and all of `damaged` equals that over all of `payload`.
pub proof fn lemma_damaged_payload_is_caught(
    before: Seq<u8>,
    payload: Seq<u8>,
    damaged: Seq<u8>,
    after: Seq<u8>,
)
    requires
        payload.len() <= u32::MAX,
        damaged.len() == payload.len(),
        before.len() <= u64::MAX,
    ensures
        ({
            let len_bytes = spec_u32_to_le_bytes(payload.len() as u32);
            let file = before + frame(payload).subrange(0, 8) + damaged + after;
            read_record(file, before.len() as u64) is Ok ==> crc32c(len_bytes + damaged)
                == crc32c(len_bytes + payload)
        }),
{
    lemma_auto_spec_u32_to_from_le_bytes();
    lemma_record_layout(payload);
    let len_bytes = spec_u32_to_le_bytes(payload.len() as u32);
    let file = before + frame(payload).subrange(0, 8) + damaged + after;
    let o = before.len() as int;
    assert(file.subrange(o, o + 4) =~= len_bytes);
    assert(file.subrange(o + 4, o + 8) =~= frame(payload).subrange(4, 8));
    assert(file.subrange(o + 8, o + 8 + payload.len()) =~= damaged);
    if read_record(file, before.len() as u64) is Ok {
        assert(spec_u32_from_le_bytes(spec_u32_to_le_bytes(crc32c(len_bytes + damaged)))
            == crc32c(len_bytes + damaged));
    }
}

/// Which range failure a read reports: an offset whose 8-byte header does not fit in the
/// log is an argument error naming the log's length; a header that fits but declares a
/// payload running past the end of the log is corruption at that offset.
pub proof fn lemma_read_range_failures(log: Seq<u8>, offset: u64)
    requires
        log.len() <= u64::MAX,
    ensures
        offset + HEADER_LEN > log.len() ==> read_record(log, offset) == Err::<Seq<u8>, StoreError>(
            StoreError::OffsetOutOfRange { offset, log_len: log.len() as u64 },
        ),
        offset + HEADER_LEN <= log.len() && offset + HEADER_LEN + spec_u32_from_le_bytes(
            log.subrange(offset as int, offset + 4),
        ) > log.len() ==> read_record(log, offset) == Err::<Seq<u8>, StoreError>(
            StoreError::Corrupt { offset, reason: CorruptReason::LengthOutOfRange },
        ),
{
}

} // verus!
