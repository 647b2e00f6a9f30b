use vstd::bytes::*;
use vstd::prelude::*;
use vstd::slice::{slice_subrange, slice_to_vec};
use vstd::string::StringExecFns;
use vstd::utf8::{
    decode_utf8, decode_utf8_encode_utf8, encode_utf8, encode_utf8_decode_utf8,
    encode_utf8_valid_utf8, valid_utf8,
};

use crate::error::StoreError;
use crate::record::bytes_result;

verus! {

/// Width of the frame's stream id length field.
pub const STREAM_LEN_LEN: usize = 2;

/// Width of the frame's version field.
pub const VERSION_LEN: usize = 8;

/// Fixed part of every frame: the stream id length, then the version.
pub const FIXED_HEADER_LEN: usize = STREAM_LEN_LEN + VERSION_LEN;

/// An event: `data` recorded at position `version` of the stream `stream`.
#[derive(Debug, PartialEq, Eq)]
pub struct Event {
    stream: String,
    version: u64,
    data: Vec<u8>,
}

/// What an event holds, as mathematical values.
#[verifier::ext_equal]
pub struct EventModel {
    pub stream: Seq<char>,
    pub version: u64,
    pub data: Seq<u8>,
}

impl View for Event {
    type V = EventModel;

    closed spec fn view(&self) -> EventModel {
        EventModel { stream: self.stream@, version: self.version, data: self.data@ }
    }
}

/// Why a payload does not decode as an event frame.
#[derive(Debug, Clone, Copy, PartialEq, Eq)]
pub enum MalformedEvent {
    TooShort,
    StreamIdLengthZero,
    StreamIdOutOfRange,
    StreamIdNotUtf8,
}

/// The text that describes why a frame is malformed.
pub open spec fn malformed_text(m: MalformedEvent) -> Seq<char> {
    match m {
        MalformedEvent::TooShort => "frame shorter than its header"@,
        MalformedEvent::StreamIdLengthZero => "stream id length is zero"@,
        MalformedEvent::StreamIdOutOfRange => "stream id length past end of frame"@,
        MalformedEvent::StreamIdNotUtf8 => "stream id not utf-8"@,
    }
}

impl MalformedEvent {
    /// Describes why the frame is malformed.
    pub fn message(&self) -> (r: String)
        ensures
            r@ == malformed_text(*self),
    {
        match self {
            MalformedEvent::TooShort => String::from_str("frame shorter than its header"),
            MalformedEvent::StreamIdLengthZero => String::from_str("stream id length is zero"),
            MalformedEvent::StreamIdOutOfRange => String::from_str(
                "stream id length past end of frame",
            ),
            MalformedEvent::StreamIdNotUtf8 => String::from_str("stream id not utf-8"),
        }
    }
}

/// The frame that stores an event: the byte length of the stream id (`u16`), the version
/// (`u64`), the stream id in UTF-8, then the data up to the end. A stream id must be
/// present and its UTF-8 form must fit the length field.
pub open spec fn encode_frame(e: EventModel) -> Result<Seq<u8>, StoreError> {
    let id = encode_utf8(e.stream);
    if id.len() == 0 {
        Err(StoreError::EmptyStreamId)
    } else if id.len() > u16::MAX {
        Err(StoreError::StreamIdTooLong { len: id.len() as usize })
    } else {
        Ok(spec_u16_to_le_bytes(id.len() as u16) + spec_u64_to_le_bytes(e.version) + id + e.data)
    }
}

/// The stream id length that a frame declares.
pub open spec fn declared_stream_len(bytes: Seq<u8>) -> int {
    spec_u16_from_le_bytes(bytes.subrange(0, 2)) as int
}

/// The bytes of the stream id of a frame.
pub open spec fn stream_id_bytes(bytes: Seq<u8>) -> Seq<u8> {
    bytes.subrange(FIXED_HEADER_LEN as int, FIXED_HEADER_LEN + declared_stream_len(bytes))
}

/// What a payload decodes to, checked in order: it holds the fixed header, the stream id
/// length is not zero, the stream id lies inside the payload, and it is valid UTF-8. The
/// data is whatever follows, possibly nothing.
pub open spec fn parse_frame(bytes: Seq<u8>) -> Result<EventModel, MalformedEvent> {
    if bytes.len() < FIXED_HEADER_LEN {
        Err(MalformedEvent::TooShort)
    } else if declared_stream_len(bytes) == 0 {
        Err(MalformedEvent::StreamIdLengthZero)
    } else if bytes.len() < FIXED_HEADER_LEN + declared_stream_len(bytes) {
        Err(MalformedEvent::StreamIdOutOfRange)
    } else if !valid_utf8(stream_id_bytes(bytes)) {
        Err(MalformedEvent::StreamIdNotUtf8)
    } else {
        Ok(
            EventModel {
                stream: decode_utf8(stream_id_bytes(bytes)),
                version: spec_u64_from_le_bytes(bytes.subrange(2, 10)),
                data: bytes.subrange(
                    FIXED_HEADER_LEN + declared_stream_len(bytes),
                    bytes.len() as int,
                ),
            },
        )
    }
}

/// A decoded event seen as its model.
pub open spec fn event_result<E>(r: Result<Event, E>) -> Result<EventModel, E> {
    match r {
        Ok(e) => Ok(e@),
        Err(err) => Err(err),
    }
}

/// Calls `String::from_utf8`. Claimed, as its documentation says: it succeeds exactly when
/// the bytes are valid UTF-8, and the string then holds the characters that they encode.
#[verifier::external_body]
fn string_from_utf8(bytes: Vec<u8>) -> (r: Option<String>)
    ensures
        match r {
            Some(s) => valid_utf8(bytes@) && s@ == decode_utf8(bytes@),
            None => !valid_utf8(bytes@),
        },
{
    String::from_utf8(bytes).ok()
}

impl Event {
    pub fn new(stream: String, version: u64, data: Vec<u8>) -> (r: Event)
        ensures
            r@ == (EventModel { stream: stream@, version, data: data@ }),
    {
        Event { stream, version, data }
    }

    /// The stream the event belongs to.
    pub fn stream(&self) -> (r: &String)
        ensures
            r@ == self@.stream,
    {
        &self.stream
    }

    /// The event's position in its stream.
    pub fn version(&self) -> (r: u64)
        ensures
            r == self@.version,
    {
        self.version
    }

    /// The event's data.
    pub fn data(&self) -> (r: &Vec<u8>)
        ensures
            r@ == self@.data,
    {
        &self.data
    }

    /// Writes the event's frame.
    pub fn encode(&self) -> (r: Result<Vec<u8>, StoreError>)
        ensures
            bytes_result(r) == encode_frame(self@),
    {
        let id = self.stream.as_str().as_bytes();
        if id.len() == 0 {
            return Err(StoreError::EmptyStreamId);
        }
        if id.len() > 0xffffusize {
            return Err(StoreError::StreamIdTooLong { len: id.len() });
        }
        let stream_len = id.len() as u16;
        let mut buffer = u16_to_le_bytes(stream_len);
        let mut version_bytes = u64_to_le_bytes(self.version);
        let mut id_bytes = slice_to_vec(id);
        let mut data = slice_to_vec(self.data.as_slice());
        buffer.append(&mut version_bytes);
        buffer.append(&mut id_bytes);
        buffer.append(&mut data);
        Ok(buffer)
    }

    /// Reads an event from its frame. A decoder does not know where the bytes came from,
    /// so it says only why they are malformed.
    pub fn decode(bytes: &[u8]) -> (r: Result<Event, MalformedEvent>)
        ensures
            event_result(r) == parse_frame(bytes@),
    {
        if bytes.len() < FIXED_HEADER_LEN {
            return Err(MalformedEvent::TooShort);
        }
        let stream_len = u16_from_le_bytes(slice_subrange(bytes, 0, STREAM_LEN_LEN));
        if stream_len == 0 {
            return Err(MalformedEvent::StreamIdLengthZero);
        }
        let version = u64_from_le_bytes(slice_subrange(bytes, STREAM_LEN_LEN, FIXED_HEADER_LEN));
        let stream_end = FIXED_HEADER_LEN + stream_len as usize;
        if bytes.len() < stream_end {
            return Err(MalformedEvent::StreamIdOutOfRange);
        }
        let stream_bytes = slice_to_vec(slice_subrange(bytes, FIXED_HEADER_LEN, stream_end));
        let stream = match string_from_utf8(stream_bytes) {
            Some(s) => s,
            None => {
                return Err(MalformedEvent::StreamIdNotUtf8);
            },
        };
        let data = slice_to_vec(slice_subrange(bytes, stream_end, bytes.len()));
        let event = Event { stream, version, data };
        proof {
            assert(event@ =~= parse_frame(bytes@)->Ok_0);
        }
        Ok(event)
    }
}

/// Decoding gives back what encoding wrote: the frame of an event decodes to that event.
pub proof fn lemma_decode_encoded(e: EventModel)
    requires
        encode_frame(e) is Ok,
    ensures
        parse_frame(encode_frame(e)->Ok_0) == Ok::<EventModel, MalformedEvent>(e),
{
    lemma_auto_spec_u16_to_from_le_bytes();
    lemma_auto_spec_u64_to_from_le_bytes();
    encode_utf8_valid_utf8(e.stream);
    encode_utf8_decode_utf8(e.stream);
    let id = encode_utf8(e.stream);
    let len_bytes = spec_u16_to_le_bytes(id.len() as u16);
    let version_bytes = spec_u64_to_le_bytes(e.version);
    let bytes = encode_frame(e)->Ok_0;
    assert(bytes.subrange(0, 2) =~= len_bytes);
    assert(bytes.subrange(2, 10) =~= version_bytes);
    assert(stream_id_bytes(bytes) =~= id);
    assert(bytes.subrange(10 + id.len() as int, bytes.len() as int) =~= e.data);
    assert(parse_frame(bytes)->Ok_0 =~= e);
}

/// Encoding gives back what was decoded: an event decoded from a payload encodes to
/// exactly that payload.
pub proof fn lemma_encode_decoded(bytes: Seq<u8>)
    requires
        parse_frame(bytes) is Ok,
    ensures
        encode_frame(parse_frame(bytes)->Ok_0) == Ok::<Seq<u8>, StoreError>(bytes),
{
    lemma_auto_spec_u16_to_from_le_bytes();
    lemma_auto_spec_u64_to_from_le_bytes();
    let id = stream_id_bytes(bytes);
    decode_utf8_encode_utf8(id);
    let e = parse_frame(bytes)->Ok_0;
    assert(spec_u16_to_le_bytes(spec_u16_from_le_bytes(bytes.subrange(0, 2))) == bytes.subrange(
        0,
        2,
    ));
    assert(spec_u64_to_le_bytes(spec_u64_from_le_bytes(bytes.subrange(2, 10))) == bytes.subrange(
        2,
        10,
    ));
    assert(bytes.subrange(0, 2) + bytes.subrange(2, 10) + id + e.data =~= bytes);
}

/// When an event can be encoded: exactly when its stream id's UTF-8 form is neither empty
/// nor longer than `u16::MAX` bytes.
pub proof fn lemma_encodable(e: EventModel)
    ensures
        encode_frame(e) is Ok <==> 0 < encode_utf8(e.stream).len() <= u16::MAX,
        encode_utf8(e.stream).len() == 0 ==> encode_frame(e) == Err::<Seq<u8>, StoreError>(
            StoreError::EmptyStreamId,
        ),
        encode_utf8(e.stream).len() > u16::MAX ==> encode_frame(e) == Err::<Seq<u8>, StoreError>(
            StoreError::StreamIdTooLong { len: encode_utf8(e.stream).len() as usize },
        ),
{
}

/// The layout of a frame, the same for every stream id: the stream id's byte length as a
/// little-endian `u16`, the version as a little-endian `u64`, the stream id in UTF-8, then
/// the data.
pub proof fn lemma_frame_layout(e: EventModel)
    requires
        encode_frame(e) is Ok,
    ensures
        ({
            let bytes = encode_frame(e)->Ok_0;
            let id = encode_utf8(e.stream);
            &&& bytes.len() == FIXED_HEADER_LEN + id.len() + e.data.len()
            &&& bytes.subrange(0, 2) == spec_u16_to_le_bytes(id.len() as u16)
            &&& bytes.subrange(2, 10) == spec_u64_to_le_bytes(e.version)
            &&& bytes.subrange(10, 10 + id.len() as int) == id
            &&& bytes.subrange(10 + id.len() as int, bytes.len() as int) == e.data
        }),
{
    lemma_auto_spec_u16_to_from_le_bytes();
    lemma_auto_spec_u64_to_from_le_bytes();
    let bytes = encode_frame(e)->Ok_0;
    let id = encode_utf8(e.stream);
    assert(bytes.subrange(0, 2) =~= spec_u16_to_le_bytes(id.len() as u16));
    assert(bytes.subrange(2, 10) =~= spec_u64_to_le_bytes(e.version));
    assert(bytes.subrange(10, 10 + id.len() as int) =~= id);
    assert(bytes.subrange(10 + id.len() as int, bytes.len() as int) =~= e.data);
}

/// What decoding reads from a frame, the same for every stream id: the version is the
/// little-endian `u64` at bytes 2..10, the stream id is the UTF-8 text of the bytes that
/// follow, as many as the little-endian `u16` at bytes 0..2 says, and the data is the rest.
pub proof fn lemma_decoded_fields(bytes: Seq<u8>)
    requires
        parse_frame(bytes) is Ok,
    ensures
        ({
            let e = parse_frame(bytes)->Ok_0;
            let n = spec_u16_from_le_bytes(bytes.subrange(0, 2)) as int;
            &&& 0 < n
            &&& FIXED_HEADER_LEN + n <= bytes.len()
            &&& e.version == spec_u64_from_le_bytes(bytes.subrange(2, 10))
            &&& valid_utf8(bytes.subrange(10, 10 + n))
            &&& encode_utf8(e.stream) == bytes.subrange(10, 10 + n)
            &&& e.data == bytes.subrange(10 + n, bytes.len() as int)
        }),
{
    let n = spec_u16_from_le_bytes(bytes.subrange(0, 2)) as int;
    decode_utf8_encode_utf8(bytes.subrange(10, 10 + n));
}

/// Why decoding refuses a payload, checked in this order: fewer than 10 bytes; a stream id
/// length (the little-endian `u16` at bytes 0..2) of zero; a stream id running past the
/// end of the payload; a stream id that is not valid UTF-8.
pub proof fn lemma_decode_failures(bytes: Seq<u8>)
    ensures
        ({
            let n = spec_u16_from_le_bytes(bytes.subrange(0, 2)) as int;
            &&& bytes.len() < 10 ==> parse_frame(bytes) == Err::<EventModel, MalformedEvent>(
                MalformedEvent::TooShort,
            )
            &&& bytes.len() >= 10 && n == 0 ==> parse_frame(bytes) == Err::<
                EventModel,
                MalformedEvent,
            >(MalformedEvent::StreamIdLengthZero)
            &&& bytes.len() >= 10 && n > 0 && bytes.len() < 10 + n ==> parse_frame(bytes)
                == Err::<EventModel, MalformedEvent>(MalformedEvent::StreamIdOutOfRange)
            &&& bytes.len() >= 10 + n && n > 0 && !valid_utf8(bytes.subrange(10, 10 + n))
                ==> parse_frame(bytes) == Err::<EventModel, MalformedEvent>(
                MalformedEvent::StreamIdNotUtf8,
            )
            &&& bytes.len() >= 10 + n && n > 0 && valid_utf8(bytes.subrange(10, 10 + n))
                ==> parse_frame(bytes) is Ok
        }),
{
}

} // verus!
