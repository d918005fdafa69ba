use carrier::packet::{EncryptedPacket, Frame, RoutingDirection};

#[test]
fn decode_with_payload() {
    let pl = EncryptedPacket::decode(&[
        0x08, 0xff, 0xff, 0xff, 0x00, 0x00, 0x00, 0x00, 0x00, 0x00, 0x00, 0x00, // routing key
        0x00, 0x00, 0x00, 0x00, 0x00, 0x00, 0x00, 0x00, // packet counter
        0xf0, 0x0d, // payload
    ])
    .unwrap();
    assert_eq!(pl.payload.as_slice(), &[0xf0, 0x0d]);
}

#[test]
fn decode_invalid_packets() {
    assert!(EncryptedPacket::decode(&[]).is_err());
    assert!(EncryptedPacket::decode(&[0; 128]).is_err());
    assert!(EncryptedPacket::decode(&[0x08; 128]).is_err());
}

#[test]
fn config_frames() {
    let frame = Frame::Config {
        timeout: None,
        sleeping: false,
    };
    let mut w = Vec::new();
    let written = frame.encode(&mut w).unwrap();
    assert_eq!(written, w.len());
    assert_eq!(w, &[0x07, 0x00, 0x00, 0x00]);

    let frames = Frame::decode(&w[..]).unwrap();
    assert_eq!(frames.len(), 1);
    if let Frame::Config {
        timeout: None,
        sleeping: false,
    } = frames[0]
    {
    } else {
        assert!(false, "expected config frame");
    }

    let frame = Frame::Config {
        timeout: Some(1292),
        sleeping: true,
    };
    let mut w = Vec::new();
    let written = frame.encode(&mut w).unwrap();
    assert_eq!(written, w.len());
    assert_eq!(w, &[0x07, 0b11000000, 0, 2, 5, 12]);

    let frames = Frame::decode(&w[..]).unwrap();
    assert_eq!(frames.len(), 1);
    if let Frame::Config {
        timeout: Some(1292),
        sleeping: true,
    } = frames[0]
    {
    } else {
        assert!(false, "expected config frame");
    }
}

#[test]
fn encode_frame() {
    let frame = Frame::Stream {
        order: 0x1223,
        payload: b"hello".to_vec(),
        stream: 0x63,
    };

    let mut w = Vec::new();
    let written = frame.encode(&mut w).unwrap();
    assert_eq!(written, w.len());
    assert_eq!(
        w,
        &[
            0x05, 0x00, 0x00, 0x00, 0x63, 0x00, 0x00, 0x00, 0x00, 0x00, 0x00, 0x12, 0x23, 0x00,
            0x05, b'h', b'e', b'l', b'l', b'o'
        ]
    );

    let frame = Frame::Ack {
        delay: 0x01,
        acked: vec![0x872],
    };
    let mut w = Vec::new();
    let written = frame.encode(&mut w).unwrap();
    assert_eq!(written, w.len());
    assert_eq!(written, 1 + 2 + 2 + 8);
    assert_eq!(
        w,
        &[0x01, 0x00, 0x01, 0x00, 0x01, 0x00, 0x00, 0x00, 0x00, 0x00, 0x00, 0x08, 0x72,]
    );
}

#[test]
fn decode_frame() {
    let r = [
        0x00, 0x00, 0x00, 0x05, 0x00, 0x00, 0x00, 0x63, 0x00, 0x00, 0x00, 0x00, 0x00, 0x00, 0x12,
        0x23, 0x00, 0x05, b'h', b'e', b'l', b'l', b'o', 0x00, 0x01, 0x00, 0x05, 0x00, 0x02, 0x00,
        0x00, 0x00, 0x00, 0x00, 0x00, 0x12, 0x24, 0x00, 0x00, 0x00, 0x00, 0x00, 0x00, 0x12, 0x23,
        0x00, 0x00, 0x00,
    ];

    let frames = Frame::decode(&r[..]).unwrap();
    assert_eq!(frames.len(), 2);
    if let Frame::Stream {
        order,
        ref payload,
        stream,
    } = frames[0]
    {
        assert_eq!(order, 0x1223);
        assert_eq!(payload, b"hello");
        assert_eq!(stream, 0x63);
    } else {
        assert!(false, "expected stream frame");
    }
    if let Frame::Ack { delay, ref acked } = frames[1] {
        assert_eq!(delay, 0x05);
        assert_eq!(acked, &[0x1224, 0x1223]);
    } else {
        assert!(false, "expected ack frame");
    }
}

#[test]
fn direction_bit_round_trip() {
    let route: u64 = 0x1234;
    let p = EncryptedPacket {
        version: 0x08,
        route,
        direction: RoutingDirection::Responder2Initiator,
        counter: 9,
        payload: vec![1, 2, 3],
    };
    let w = p.encode();
    assert_eq!(w[11] & 1, 1);
    let q = EncryptedPacket::decode(&w[..]).unwrap();
    assert_eq!(q.route, route & !1);
    assert_eq!(q.direction, RoutingDirection::Responder2Initiator);
    assert_eq!(q.counter, 9);
    assert_eq!(q.payload, vec![1, 2, 3]);
}

#[test]
fn packet_round_trip_initiator() {
    let p = EncryptedPacket {
        version: 0x08,
        route: 0xdead_bee0,
        direction: RoutingDirection::Initiator2Responder,
        counter: u64::MAX,
        payload: Vec::new(),
    };
    let w = p.encode();
    assert_eq!(w.len(), 20);
    let q = EncryptedPacket::decode(&w[..]).unwrap();
    assert_eq!(q.route, 0xdead_bee0);
    assert_eq!(q.direction, RoutingDirection::Initiator2Responder);
    assert_eq!(q.counter, u64::MAX);
    assert!(q.payload.is_empty());
}

#[test]
fn frame_round_trips() {
    let frames = vec![
        Frame::Ping,
        Frame::Disconnect,
        Frame::Header { stream: 7, payload: vec![9, 8, 7] },
        Frame::Stream { stream: 1, order: 2, payload: vec![] },
        Frame::Close { stream: 3, order: 77 },
        Frame::Ack { delay: 11, acked: vec![1, 5, 9] },
        Frame::Config { timeout: Some(60), sleeping: false },
    ];
    let mut w = Vec::new();
    for f in &frames {
        f.encode(&mut w).unwrap();
    }
    let back = Frame::decode(&w[..]).unwrap();
    assert_eq!(back, frames);
}

#[test]
fn ack_list_is_sorted_on_the_wire() {
    let frame = Frame::Ack { delay: 0, acked: vec![9, 1, 5] };
    let mut w = Vec::new();
    frame.encode(&mut w).unwrap();
    let back = Frame::decode(&w[..]).unwrap();
    assert_eq!(back.len(), 1);
    if let Frame::Ack { ref acked, .. } = back[0] {
        assert_eq!(acked, &[1, 5, 9]);
    } else {
        assert!(false, "expected ack frame");
    }
}

#[test]
fn unknown_tag_is_refused() {
    match Frame::decode(&[0x02, 0x77][..]) {
        Err(carrier::Error::InvalidFrameType { typ }) => assert_eq!(typ, 0x77),
        _ => assert!(false, "expected invalid frame type"),
    }
}

#[test]
fn truncated_frame_is_refused() {
    assert!(Frame::decode(&[0x05, 0x00][..]).is_err());
}

#[test]
fn frame_len_matches_encoding() {
    let f = Frame::Header { stream: 1, payload: vec![0; 10] };
    let mut w = Vec::new();
    f.encode(&mut w).unwrap();
    assert_eq!(f.len(), w.len());
    assert!(Frame::Ping.is_ping());
    assert!(!Frame::Ping.is_ack());
    assert!(Frame::Ack { delay: 0, acked: vec![] }.is_ack());
    assert_eq!(Frame::Header { stream: 1, payload: vec![] }.order(), 1);
    assert_eq!(Frame::Close { stream: 1, order: 6 }.order(), 6);
}
