use grpc_json_codec::codec::{decode_frame, decode_stream, encode_frame, DecodeFault, FrameEvent};

#[test]
fn absent_body_encodes_to_five_zero_bytes() {
    assert_eq!(encode_frame(&None), vec![0u8, 0, 0, 0, 0]);
}

#[test]
fn present_body_encodes_with_big_endian_length() {
    let frame = encode_frame(&Some(String::from("{\"a\":1}")));
    let mut expected = vec![0u8, 0, 0, 0, 7];
    expected.extend_from_slice(b"{\"a\":1}");
    assert_eq!(frame, expected);
}

#[test]
fn unary_response_frame_decodes_to_text() {
    let mut response = vec![0u8, 0, 0, 0, 5];
    response.extend_from_slice(b"hello");
    match decode_frame(&response) {
        Ok(FrameEvent::Message(m)) => assert_eq!(m, "hello"),
        other => panic!("expected a message, got {:?}", other),
    }
}

#[test]
fn round_trip_returns_the_body() {
    let body = String::from("{\"greeting\":\"salut\"}");
    let frame = encode_frame(&Some(body.clone()));
    match decode_frame(&frame) {
        Ok(FrameEvent::Message(m)) => assert_eq!(m, body),
        other => panic!("expected a message, got {:?}", other),
    }
}

#[test]
fn round_trip_of_empty_body_hits_the_terminal_path() {
    let frame = encode_frame(&Some(String::new()));
    assert_eq!(frame, vec![0u8, 0, 0, 0, 0]);
    assert!(matches!(decode_frame(&frame), Ok(FrameEvent::EmptySignal)));
}

#[test]
fn short_buffers_fault_regardless_of_content() {
    assert_eq!(decode_frame(&[]).unwrap_err(), DecodeFault::ShortBuffer);
    assert_eq!(decode_frame(&[0]).unwrap_err(), DecodeFault::ShortBuffer);
    assert_eq!(decode_frame(&[1, 2, 3, 4]).unwrap_err(), DecodeFault::ShortBuffer);
    assert_eq!(decode_frame(&[255, 255, 255, 255]).unwrap_err(), DecodeFault::ShortBuffer);
}

#[test]
fn zero_declared_length_signals_empty_and_ignores_trailing_bytes() {
    assert!(matches!(decode_frame(&[0, 0, 0, 0, 0]), Ok(FrameEvent::EmptySignal)));
    assert!(matches!(decode_frame(&[0, 0, 0, 0, 0, 255, 254]), Ok(FrameEvent::EmptySignal)));
}

#[test]
fn invalid_utf8_payload_faults_with_decode_error() {
    assert_eq!(
        decode_frame(&[0, 0, 0, 0, 2, 0xff, 0xfe]).unwrap_err(),
        DecodeFault::InvalidUtf8
    );
}

#[test]
fn multibyte_utf8_payload_decodes_to_its_text() {
    match decode_frame(&[0, 0, 0, 0, 2, 0xc3, 0xa9]) {
        Ok(FrameEvent::Message(m)) => assert_eq!(m, "\u{e9}"),
        other => panic!("expected a message, got {:?}", other),
    }
}

#[test]
fn compression_flag_byte_is_skipped_not_interpreted() {
    match decode_frame(&[1, 0, 0, 0, 2, b'h', b'i']) {
        Ok(FrameEvent::Message(m)) => assert_eq!(m, "hi"),
        other => panic!("expected a message, got {:?}", other),
    }
}

#[test]
fn decoder_takes_all_remaining_bytes_beyond_the_declared_length() {
    let mut frame = vec![0u8, 0, 0, 0, 5];
    frame.extend_from_slice(b"hellothere");
    match decode_frame(&frame) {
        Ok(FrameEvent::Message(m)) => assert_eq!(m, "hellothere"),
        other => panic!("expected a message, got {:?}", other),
    }
}

#[test]
fn decoder_takes_what_is_available_when_the_declared_length_overshoots() {
    let mut frame = vec![0u8, 0, 0, 0, 9];
    frame.extend_from_slice(b"hi");
    match decode_frame(&frame) {
        Ok(FrameEvent::Message(m)) => assert_eq!(m, "hi"),
        other => panic!("expected a message, got {:?}", other),
    }
}

fn message_frame(payload: &[u8]) -> Vec<u8> {
    let mut frame = vec![0u8];
    frame.extend_from_slice(&(payload.len() as u32).to_be_bytes());
    frame.extend_from_slice(payload);
    frame
}

#[test]
fn streaming_emits_chunks_in_arrival_order() {
    let chunks = vec![message_frame(b"a"), message_frame(b"b"), message_frame(b"c")];
    let outcome = decode_stream(&chunks).unwrap();
    assert_eq!(outcome.messages, vec!["a", "b", "c"]);
    assert!(!outcome.terminated);
}

#[test]
fn streaming_stops_at_a_zero_length_frame() {
    let chunks = vec![message_frame(b"a"), vec![0u8, 0, 0, 0, 0], message_frame(b"c")];
    let outcome = decode_stream(&chunks).unwrap();
    assert_eq!(outcome.messages, vec!["a"]);
    assert!(outcome.terminated);
}

#[test]
fn streaming_of_no_chunks_emits_nothing() {
    let outcome = decode_stream(&Vec::new()).unwrap();
    assert!(outcome.messages.is_empty());
    assert!(!outcome.terminated);
}

#[test]
fn streaming_aborts_on_a_short_chunk() {
    let chunks = vec![message_frame(b"a"), vec![0u8, 0]];
    assert_eq!(decode_stream(&chunks).unwrap_err(), DecodeFault::ShortBuffer);
}

#[test]
fn streaming_aborts_on_an_invalid_utf8_chunk() {
    let chunks = vec![message_frame(b"a"), vec![0u8, 0, 0, 0, 1, 0x80]];
    assert_eq!(decode_stream(&chunks).unwrap_err(), DecodeFault::InvalidUtf8);
}
