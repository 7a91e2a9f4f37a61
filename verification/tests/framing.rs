use counter_pipeline::codec::{decode_frame, encode_frame, FrameError, MAX_FRAME_LEN};

#[test]
fn frame_layout_is_length_then_payload() {
    let payload = vec![1u8, 2, 3];
    let frame = encode_frame(&payload);
    assert_eq!(frame, vec![0u8, 0, 0, 3, 1, 2, 3]);
}

#[test]
fn frame_round_trips() {
    let payload = vec![10u8, 20, 30, 40, 50];
    let frame = encode_frame(&payload);
    let (decoded, consumed) = decode_frame(&frame).expect("a whole frame decodes");
    assert_eq!(decoded, payload);
    assert_eq!(consumed, frame.len());
}

#[test]
fn empty_payload_round_trips() {
    let payload: Vec<u8> = Vec::new();
    let frame = encode_frame(&payload);
    assert_eq!(frame, vec![0u8, 0, 0, 0]);
    let (decoded, consumed) = decode_frame(&frame).expect("an empty frame decodes");
    assert_eq!(decoded, payload);
    assert_eq!(consumed, 4);
}

#[test]
fn decode_leaves_trailing_bytes() {
    let payload = vec![7u8, 8];
    let mut buf = encode_frame(&payload);
    buf.push(99);
    buf.push(100);
    let (decoded, consumed) = decode_frame(&buf).expect("the first frame decodes");
    assert_eq!(decoded, payload);
    assert_eq!(consumed, 6);
    assert_eq!(&buf[consumed..], &[99, 100]);
}

#[test]
fn decode_short_header_is_incomplete() {
    let buf = vec![0u8, 0, 0];
    assert_eq!(decode_frame(&buf), Err(FrameError::Incomplete));
}

#[test]
fn decode_short_payload_is_incomplete() {
    let buf = vec![0u8, 0, 0, 5, 1, 2];
    assert_eq!(decode_frame(&buf), Err(FrameError::Incomplete));
}

#[test]
fn decode_oversized_length_is_rejected() {
    // the header announces far more than the frame size limit
    let buf = vec![0xFFu8, 0, 0, 0];
    assert_eq!(decode_frame(&buf), Err(FrameError::TooLong));
}

#[test]
fn frame_limit_allows_a_mebibyte() {
    // the limit is implementation-defined but covers at least 1 MiB
    assert!(MAX_FRAME_LEN >= 1024 * 1024);
    let payload = vec![0u8; 1024 * 1024];
    let frame = encode_frame(&payload);
    let (decoded, consumed) = decode_frame(&frame).expect("a mebibyte frame decodes");
    assert_eq!(decoded.len(), payload.len());
    assert_eq!(consumed, frame.len());
}
