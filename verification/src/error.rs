use vstd::prelude::*;

use vstd::string::StringExecFns;

use crate::event::{malformed_text, MalformedEvent};
use crate::text::{decimal, decimal_text};

verus! {

#[verifier::external_type_specification]
#[verifier::external_body]
pub struct ExIoError(std::io::Error);

/// Every failure the store reports.
#[derive(Debug)]
pub enum StoreError {
    /// The underlying file operation failed.
    Io(std::io::Error),
    /// A record (or the frame inside it) at `offset` is not trustworthy.
    Corrupt { offset: u64, reason: CorruptReason },
    /// The caller asked for an offset that does not address a record header inside the log.
    OffsetOutOfRange { offset: u64, log_len: u64 },
    /// A payload longer than `u32::MAX` bytes cannot be framed.
    PayloadTooLarge { len: usize },
    /// An event must name a stream.
    EmptyStreamId,
    /// A stream id must fit in a `u16` length prefix.
    StreamIdTooLong { len: usize },
}

/// Why a record was judged corrupt.
#[derive(Debug, Clone, Copy, PartialEq, Eq)]
pub enum CorruptReason {
    ChecksumMismatch,
    LengthOutOfRange,
    MalformedFrame(MalformedEvent),
    NonContiguousVersion { expected: u64, found: u64 },
}

/// The text that describes why a record is corrupt.
pub open spec fn reason_text(reason: CorruptReason) -> Seq<char> {
    match reason {
        CorruptReason::ChecksumMismatch => "checksum mismatch"@,
        CorruptReason::LengthOutOfRange => "length out of range"@,
        CorruptReason::MalformedFrame(m) => "malformed frame: "@ + malformed_text(m),
        CorruptReason::NonContiguousVersion { expected, found } => "version "@ + decimal(
            found as nat,
        ) + " where version "@ + decimal(expected as nat) + " was expected"@,
    }
}

/// The text that describes an error other than a failed file operation.
pub open spec fn error_text(e: StoreError) -> Seq<char> {
    match e {
        StoreError::Io(_) => Seq::empty(),
        StoreError::Corrupt { offset, reason } => reason_text(reason) + " at offset "@ + decimal(
            offset as nat,
        ),
        StoreError::OffsetOutOfRange { offset, log_len } => "offset "@ + decimal(offset as nat)
            + " out of range for log length "@ + decimal(log_len as nat),
        StoreError::PayloadTooLarge { len } => "payload too large ("@ + decimal(len as nat)
            + ")"@,
        StoreError::EmptyStreamId => "stream id is empty"@,
        StoreError::StreamIdTooLong { len } => "stream id too long ("@ + decimal(len as nat)
            + ")"@,
    }
}

/// Calls `ToString::to_string` on an I/O error, which gives its `Display` text. Nothing is
/// claimed of that text: it comes from the operating system.
#[verifier::external_body]
fn io_error_text(err: &std::io::Error) -> String {
    err.to_string()
}

impl From<std::io::Error> for StoreError {
    fn from(value: std::io::Error) -> (r: StoreError) {
        StoreError::Io(value)
    }
}

impl vstd::std_specs::convert::FromSpecImpl<std::io::Error> for StoreError {
    open spec fn obeys_from_spec() -> bool {
        true
    }

    open spec fn from_spec(v: std::io::Error) -> StoreError {
        StoreError::Io(v)
    }
}

impl CorruptReason {
    /// Describes why the record is corrupt.
    pub fn message(&self) -> (r: String)
        ensures
            r@ == reason_text(*self),
    {
        match self {
            CorruptReason::ChecksumMismatch => String::from_str("checksum mismatch"),
            CorruptReason::LengthOutOfRange => String::from_str("length out of range"),
            CorruptReason::MalformedFrame(m) => {
                let mut text = String::from_str("malformed frame: ");
                let inner = m.message();
                text.append(inner.as_str());
                text
            },
            CorruptReason::NonContiguousVersion { expected, found } => {
                let mut text = String::from_str("version ");
                let found_text = decimal_text(*found);
                text.append(found_text.as_str());
                text.append(" where version ");
                let expected_text = decimal_text(*expected);
                text.append(expected_text.as_str());
                text.append(" was expected");
                text
            },
        }
    }
}

impl StoreError {
    /// Describes the error. The text of a failed file operation is the operating system's.
    pub fn message(&self) -> (r: String)
        ensures
            !(self is Io) ==> r@ == error_text(*self),
    {
        match self {
            StoreError::Io(err) => io_error_text(err),
            StoreError::Corrupt { offset, reason } => {
                let mut text = reason.message();
                text.append(" at offset ");
                let offset_text = decimal_text(*offset);
                text.append(offset_text.as_str());
                text
            },
            StoreError::OffsetOutOfRange { offset, log_len } => {
                let mut text = String::from_str("offset ");
                let offset_text = decimal_text(*offset);
                text.append(offset_text.as_str());
                text.append(" out of range for log length ");
                let len_text = decimal_text(*log_len);
                text.append(len_text.as_str());
                text
            },
            StoreError::PayloadTooLarge { len } => {
                let mut text = String::from_str("payload too large (");
                let len_text = decimal_text(*len as u64);
                text.append(len_text.as_str());
                text.append(")");
                text
            },
            StoreError::EmptyStreamId => String::from_str("stream id is empty"),
            StoreError::StreamIdTooLong { len } => {
                let mut text = String::from_str("stream id too long (");
                let len_text = decimal_text(*len as u64);
                text.append(len_text.as_str());
                text.append(")");
                text
            },
        }
    }
}

} // verus!
