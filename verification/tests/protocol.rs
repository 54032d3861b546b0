use zaichik::protocol::{CodecError, ZaichikCodec, ZaichikFrame};

#[test]
fn test_frame_encoder_decoder() {
    let frame = ZaichikFrame::Publish {
        topic: String::from("topic"),
        key: None,
        payload: vec![1, 2, 3, 4, 5],
    };

    let mut buffer: Vec<u8> = Vec::new();
    ZaichikCodec::new().encode(frame.clone(), &mut buffer).unwrap();

    let decoded = ZaichikCodec::new().decode(&mut buffer).unwrap().unwrap();
    assert_eq!(frame, decoded)
}

#[test]
fn test_frame_encoder_decoder_on_multiplexed_stream() {
    let frame1 = ZaichikFrame::Publish {
        topic: String::from("topic1"),
        key: None,
        payload: vec![1, 2, 3, 4, 5],
    };

    let frame2 = ZaichikFrame::Publish {
        topic: String::from("topic2"),
        key: None,
        payload: vec![1, 2, 3, 4, 5],
    };

    let mut buffer: Vec<u8> = Vec::new();

    ZaichikCodec::new().encode(frame1.clone(), &mut buffer).unwrap();
    ZaichikCodec::new().encode(frame2.clone(), &mut buffer).unwrap();

    let decoded1 = ZaichikCodec::new().decode(&mut buffer).unwrap().unwrap();
    let decoded2 = ZaichikCodec::new().decode(&mut buffer).unwrap().unwrap();

    assert_eq!(frame1, decoded1);
    assert_eq!(frame2, decoded2);
}

#[test]
fn round_trip_every_variant() {
    let frames = vec![
        ZaichikFrame::CreateTopic {
            topic: String::from("orders"),
            retention_ttl: 10_000,
            compaction_window: 250,
        },
        ZaichikFrame::Subscribe { topic: String::from("orders") },
        ZaichikFrame::Unsubscribe { topic: String::from("orders") },
        ZaichikFrame::Publish {
            topic: String::from("orders"),
            key: Some(String::from("k1")),
            payload: b"payload".to_vec(),
        },
        ZaichikFrame::Commit,
        ZaichikFrame::CloseConnection,
    ];

    let mut buffer: Vec<u8> = Vec::new();
    let mut codec = ZaichikCodec::new();
    for frame in &frames {
        codec.encode(frame.clone(), &mut buffer).unwrap();
    }
    for frame in &frames {
        let decoded = codec.decode(&mut buffer).unwrap().unwrap();
        assert_eq!(*frame, decoded);
    }
    assert!(buffer.is_empty());
}

#[test]
fn round_trip_multibyte_topic() {
    // the topic's UTF-8 bytes are longer than its character count
    let frame = ZaichikFrame::Subscribe { topic: String::from("sch\u{f6}n-\u{442}\u{435}ma") };
    let mut buffer: Vec<u8> = Vec::new();
    let mut codec = ZaichikCodec::new();
    codec.encode(frame.clone(), &mut buffer).unwrap();
    let decoded = codec.decode(&mut buffer).unwrap().unwrap();
    assert_eq!(frame, decoded);
}

#[test]
fn exact_wire_bytes() {
    // discriminant 1, then the string "ab": u64 little-endian length 2, bytes
    let frame = ZaichikFrame::Subscribe { topic: String::from("ab") };
    let mut buffer: Vec<u8> = Vec::new();
    ZaichikCodec::new().encode(frame, &mut buffer).unwrap();
    assert_eq!(buffer, vec![1, 0, 0, 0, 2, 0, 0, 0, 0, 0, 0, 0, b'a', b'b']);

    let mut buffer: Vec<u8> = Vec::new();
    ZaichikCodec::new().encode(ZaichikFrame::Commit, &mut buffer).unwrap();
    assert_eq!(buffer, vec![4, 0, 0, 0]);

    // an optional key: present tag, then the string
    let frame = ZaichikFrame::Publish {
        topic: String::from("t"),
        key: Some(String::from("k")),
        payload: vec![9],
    };
    let mut buffer: Vec<u8> = Vec::new();
    ZaichikCodec::new().encode(frame, &mut buffer).unwrap();
    assert_eq!(
        buffer,
        vec![
            3, 0, 0, 0, // Publish
            1, 0, 0, 0, 0, 0, 0, 0, b't', // topic
            1, // key present
            1, 0, 0, 0, 0, 0, 0, 0, b'k', // key
            1, 0, 0, 0, 0, 0, 0, 0, 9, // payload
        ]
    );
}

#[test]
fn decode_needs_more_bytes() {
    let frame = ZaichikFrame::Subscribe { topic: String::from("topic") };
    let mut full: Vec<u8> = Vec::new();
    ZaichikCodec::new().encode(frame, &mut full).unwrap();

    // every strict prefix decodes to "not yet a frame" and stays buffered
    let mut prefix = full[..full.len() - 1].to_vec();
    let copy = prefix.clone();
    assert_eq!(ZaichikCodec::new().decode(&mut prefix).unwrap(), None);
    assert_eq!(prefix, copy);

    let mut empty: Vec<u8> = Vec::new();
    assert_eq!(ZaichikCodec::new().decode(&mut empty).unwrap(), None);
}

#[test]
fn decode_unknown_discriminant_discards_buffer() {
    let mut buffer = vec![9, 0, 0, 0, 1, 2, 3];
    let err = ZaichikCodec::new().decode(&mut buffer).unwrap_err();
    assert_eq!(err, CodecError::Malformed);
    assert!(buffer.is_empty());
}

#[test]
fn decode_invalid_utf8_discards_buffer() {
    // Subscribe frame whose one-byte topic is not UTF-8
    let mut buffer = vec![1, 0, 0, 0, 1, 0, 0, 0, 0, 0, 0, 0, 0xFF];
    let err = ZaichikCodec::new().decode(&mut buffer).unwrap_err();
    assert_eq!(err, CodecError::Malformed);
    assert!(buffer.is_empty());
}

#[test]
fn decode_bad_option_tag_discards_buffer() {
    // Publish frame whose key tag is neither absent nor present
    let mut buffer = vec![3, 0, 0, 0, 1, 0, 0, 0, 0, 0, 0, 0, b't', 7];
    let err = ZaichikCodec::new().decode(&mut buffer).unwrap_err();
    assert_eq!(err, CodecError::Malformed);
    assert!(buffer.is_empty());
}
