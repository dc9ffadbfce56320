use kvcore::codec::{
    decode_request_frame, decode_response_frame, encode_request, encode_request_frame,
    encode_response_frame,
};
use kvcore::{CommandRequest, CommandResponse, Kvpair, KvError, Value};

fn frame_round_trip(req: CommandRequest) {
    let frame = encode_request_frame(&req).expect("frame should fit");
    let (back, consumed) = decode_request_frame(&frame).expect("frame should decode");
    assert_eq!(back, req);
    assert_eq!(consumed, frame.len());
}

#[test]
fn request_frames_round_trip_every_variant() {
    frame_round_trip(CommandRequest::new_hget("t", "k"));
    frame_round_trip(CommandRequest::new_hgetall("t"));
    frame_round_trip(CommandRequest::new_hmget("t", vec!["a".into(), "b".into()]));
    frame_round_trip(CommandRequest::new_hset("t", "k", "v".into()));
    frame_round_trip(CommandRequest::new_hmset(
        "t",
        vec![
            Kvpair::new("a", Value::Unit),
            Kvpair::new("b", Value::Bool(true)),
            Kvpair::new("c", Value::Integer(-42)),
            Kvpair::new("d", Value::Float(0x400921FB54442D18)),
            Kvpair::new("e", Value::Str("hello".to_string())),
            Kvpair::new("f", Value::Bytes(vec![0, 1, 2, 255])),
        ],
    ));
    frame_round_trip(CommandRequest::new_hdel("t", "k"));
    frame_round_trip(CommandRequest::new_hmdel("t", vec!["a".into()]));
    frame_round_trip(CommandRequest::new_hexist("t", "k"));
    frame_round_trip(CommandRequest::new_hmexist("t", vec![]));
}

#[test]
fn request_frame_round_trips_unicode_strings() {
    frame_round_trip(CommandRequest::new_hset("ta\u{9494}ble", "k\u{00E9}y\u{1F600}", "\u{4F60}\u{597D}".into()));
}

#[test]
fn request_frame_round_trips_extreme_integers() {
    frame_round_trip(CommandRequest::new_hset("t", "min", Value::Integer(i64::MIN)));
    frame_round_trip(CommandRequest::new_hset("t", "max", Value::Integer(i64::MAX)));
    frame_round_trip(CommandRequest::new_hset("t", "zero", Value::Integer(0)));
    frame_round_trip(CommandRequest::new_hset("t", "neg", Value::Integer(-1)));
}

#[test]
fn response_frame_round_trips() {
    let resp = CommandResponse {
        status: 200,
        message: String::new(),
        values: vec![Value::Integer(7), Value::Str("x".to_string())],
        pairs: vec![],
    };
    let frame = encode_response_frame(&resp).expect("frame should fit");
    let (back, consumed) = decode_response_frame(&frame).expect("frame should decode");
    assert_eq!(back, resp);
    assert_eq!(consumed, frame.len());

    let resp = CommandResponse {
        status: 404,
        message: "Not found for table: t, key: k".to_string(),
        values: vec![],
        pairs: vec![Kvpair::new("a", Value::Bool(false))],
    };
    let frame = encode_response_frame(&resp).expect("frame should fit");
    let (back, _) = decode_response_frame(&frame).expect("frame should decode");
    assert_eq!(back, resp);
}

#[test]
fn frame_header_is_big_endian_payload_length() {
    let req = CommandRequest::new_hgetall("t");
    let payload = encode_request(&req);
    let frame = encode_request_frame(&req).unwrap();
    assert_eq!(frame.len(), 4 + payload.len());
    let n = payload.len() as u32;
    assert_eq!(
        &frame[0..4],
        &[(n >> 24) as u8, (n >> 16) as u8, (n >> 8) as u8, n as u8]
    );
    assert_eq!(&frame[4..], &payload[..]);
}

#[test]
fn oversized_frame_is_rejected_without_reading_its_body() {
    // A header declaring 16 MiB + 1, with no body present at all.
    let buf = vec![0x01, 0x00, 0x00, 0x01];
    assert_eq!(decode_request_frame(&buf), Err(KvError::FrameTooLarge));
    assert_eq!(decode_response_frame(&buf), Err(KvError::FrameTooLarge));
}

#[test]
fn truncated_header_is_incomplete() {
    assert_eq!(decode_request_frame(&[]), Err(KvError::IncompleteFrame));
    assert_eq!(decode_request_frame(&[0, 0, 0]), Err(KvError::IncompleteFrame));
}

#[test]
fn stream_closed_mid_payload_is_incomplete_not_corrupt() {
    let req = CommandRequest::new_hset("table", "key", "value".into());
    let frame = encode_request_frame(&req).unwrap();
    for cut in 4..frame.len() {
        let partial = &frame[..cut];
        assert_eq!(
            decode_request_frame(partial),
            Err(KvError::IncompleteFrame),
            "cut at {cut}"
        );
    }
}

#[test]
fn garbage_payload_is_corrupt() {
    // A header declaring 3 bytes, then an unknown command tag.
    let buf = vec![0, 0, 0, 3, 99, 0, 0];
    assert_eq!(decode_request_frame(&buf), Err(KvError::CorruptPayload));
}

#[test]
fn payload_shorter_than_declared_message_is_corrupt() {
    let req = CommandRequest::new_hget("t", "k");
    let mut frame = encode_request_frame(&req).unwrap();
    // Keep the declared length but chop the message inside: redeclare a
    // shorter payload so the message is cut mid-field.
    let shorter = (frame.len() - 4 - 2) as u32;
    frame[0] = (shorter >> 24) as u8;
    frame[1] = (shorter >> 16) as u8;
    frame[2] = (shorter >> 8) as u8;
    frame[3] = shorter as u8;
    frame.truncate(4 + shorter as usize);
    assert_eq!(decode_request_frame(&frame), Err(KvError::CorruptPayload));
}

#[test]
fn trailing_bytes_after_frame_are_left_for_the_next_one() {
    let first = CommandRequest::new_hget("t", "k1");
    let second = CommandRequest::new_hdel("t", "k2");
    let mut stream = encode_request_frame(&first).unwrap();
    stream.extend_from_slice(&encode_request_frame(&second).unwrap());
    let (back1, used1) = decode_request_frame(&stream).unwrap();
    assert_eq!(back1, first);
    let (back2, used2) = decode_request_frame(&stream[used1..]).unwrap();
    assert_eq!(back2, second);
    assert_eq!(used1 + used2, stream.len());
}
