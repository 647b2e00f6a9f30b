use eventstore::error::StoreError;
use eventstore::event::{Event, MalformedEvent};

fn orders_hi() -> Vec<u8> {
    vec![
        0x08, 0x00, 0x03, 0x00, 0x00, 0x00, 0x00, 0x00, 0x00, 0x00, 0x6f, 0x72, 0x64, 0x65, 0x72,
        0x73, 0x2d, 0x31, 0x68, 0x69,
    ]
}

#[test]
fn encodes_known_bytes() {
    let expected: Vec<u8> = orders_hi();
    let event = Event::new(String::from("orders-1"), 3, b"hi".to_vec());

    let result = event.encode().unwrap();
    assert_eq!(result, expected);
}

#[test]
fn encodes_an_event_with_no_data() {
    let expected: Vec<u8> = vec![
        0x08, 0x00, 0x03, 0x00, 0x00, 0x00, 0x00, 0x00, 0x00, 0x00, 0x6f, 0x72, 0x64, 0x65, 0x72,
        0x73, 0x2d, 0x31,
    ];
    let event = Event::new(String::from("orders-1"), 3, vec![]);

    let result = event.encode().unwrap();
    assert_eq!(result, expected);
}

#[test]
fn rejects_an_empty_stream_id() {
    let event = Event::new(String::from(""), 0, vec![]);

    let result = event.encode();

    assert!(matches!(result.unwrap_err(), StoreError::EmptyStreamId));
}

#[test]
fn rejects_a_stream_id_longer_than_u16_max() {
    let event = Event::new("a".repeat(u16::MAX as usize + 1), 0, vec![]);

    let result = event.encode();

    assert!(matches!(
        result.unwrap_err(),
        StoreError::StreamIdTooLong { len } if len == u16::MAX as usize + 1
    ));
}

#[test]
fn decodes_known_bytes() {
    let bytes: Vec<u8> = orders_hi();
    let expected = Event::new(String::from("orders-1"), 3, b"hi".to_vec());

    let event = Event::decode(&bytes).unwrap();
    assert_eq!(event, expected);
}

#[test]
fn decodes_a_frame_with_no_data() {
    let bytes: Vec<u8> = vec![
        0x08, 0x00, 0x03, 0x00, 0x00, 0x00, 0x00, 0x00, 0x00, 0x00, 0x6f, 0x72, 0x64, 0x65, 0x72,
        0x73, 0x2d, 0x31,
    ];
    let expected = Event::new(String::from("orders-1"), 3, vec![]);

    let event = Event::decode(&bytes).unwrap();
    assert_eq!(event, expected);
}

#[test]
fn rejects_a_payload_shorter_than_the_header() {
    let bytes: Vec<u8> = vec![0x08, 0x00, 0x03, 0x00, 0x00, 0x00, 0x00, 0x00, 0x00];
    let err = Event::decode(&bytes).unwrap_err();

    assert!(matches!(err, MalformedEvent::TooShort));
}

#[test]
fn rejects_a_zero_length_stream_id() {
    let bytes: Vec<u8> = vec![0x00, 0x00, 0x03, 0x00, 0x00, 0x00, 0x00, 0x00, 0x00, 0x00];
    let err = Event::decode(&bytes).unwrap_err();

    assert!(matches!(err, MalformedEvent::StreamIdLengthZero));
}

#[test]
fn rejects_a_stream_length_past_the_end() {
    let bytes: Vec<u8> = vec![0x01, 0x00, 0x03, 0x00, 0x00, 0x00, 0x00, 0x00, 0x00, 0x00];
    let err = Event::decode(&bytes).unwrap_err();

    assert!(matches!(err, MalformedEvent::StreamIdOutOfRange));
}

#[test]
fn rejects_a_non_utf8_stream_id() {
    let bytes: Vec<u8> = vec![
        0x01, 0x00, 0x03, 0x00, 0x00, 0x00, 0x00, 0x00, 0x00, 0x00, 0xFF,
    ];
    let err = Event::decode(&bytes).unwrap_err();

    assert!(matches!(err, MalformedEvent::StreamIdNotUtf8));
}

#[test]
fn round_trips_an_event() {
    let event = Event::new(String::from("orders-1"), 3, b"hi".to_vec());
    let bytes = event.encode().unwrap();
    let rebuilt = Event::decode(&bytes).unwrap();

    assert_eq!(rebuilt, event);
}

#[test]
fn round_trips_a_frame_back_to_its_bytes() {
    let bytes = orders_hi();
    let event = Event::decode(&bytes).unwrap();
    assert_eq!(event.encode().unwrap(), bytes);
}

#[test]
fn round_trips_a_multibyte_stream_id() {
    let event = Event::new(String::from("koszyk-żółw-🐢"), u64::MAX, vec![0, 255, 7]);
    let bytes = event.encode().unwrap();
    assert_eq!(bytes[0] as usize, "koszyk-żółw-🐢".len());
    assert_eq!(Event::decode(&bytes).unwrap(), event);
}

#[test]
fn accepts_a_stream_id_of_exactly_u16_max_bytes() {
    let stream = "b".repeat(u16::MAX as usize);
    let event = Event::new(stream.clone(), 1, vec![9]);
    let bytes = event.encode().unwrap();
    assert_eq!(bytes.len(), 10 + u16::MAX as usize + 1);
    assert_eq!(&bytes[0..2], &[0xff, 0xff]);
    let decoded = Event::decode(&bytes).unwrap();
    assert_eq!(decoded.stream(), &stream);
    assert_eq!(decoded.version(), 1);
    assert_eq!(decoded.data(), &vec![9u8]);
}

#[test]
fn decodes_a_valid_multibyte_stream_id_but_rejects_a_cut_one() {
    // "é" is 0xc3 0xa9 in UTF-8; a stream id holding only its first byte is invalid.
    let whole: Vec<u8> = vec![0x02, 0x00, 0x05, 0, 0, 0, 0, 0, 0, 0, 0xc3, 0xa9, 0x01];
    let event = Event::decode(&whole).unwrap();
    assert_eq!(event.stream(), "é");
    assert_eq!(event.version(), 5);
    assert_eq!(event.data(), &vec![0x01u8]);

    let cut: Vec<u8> = vec![0x01, 0x00, 0x05, 0, 0, 0, 0, 0, 0, 0, 0xc3, 0xa9];
    assert!(matches!(Event::decode(&cut).unwrap_err(), MalformedEvent::StreamIdNotUtf8));
}

#[test]
fn describes_malformed_frames() {
    assert_eq!(MalformedEvent::TooShort.message(), "frame shorter than its header");
    assert_eq!(MalformedEvent::StreamIdLengthZero.message(), "stream id length is zero");
    assert_eq!(
        MalformedEvent::StreamIdOutOfRange.message(),
        "stream id length past end of frame"
    );
    assert_eq!(MalformedEvent::StreamIdNotUtf8.message(), "stream id not utf-8");
}
