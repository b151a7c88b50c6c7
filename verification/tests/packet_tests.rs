use rust_mqtt::message::QoS;
use rust_mqtt::v3::codec::{
    decode_remaining_length, encode_bytes, encode_remaining_length, encode_string,
    packet_with_header, RemainingLength,
};
use rust_mqtt::v3::packet::{
    build_connect, build_disconnect, build_pingreq, build_puback, build_publish, build_pubcomp,
    build_pubrec, build_pubrel, build_subscribe, build_unsubscribe, parse_publish, PacketType,
    PublishError,
};
use rust_mqtt::v3::{ConnectOptions, WillMessage};

#[test]
fn connect_packet_structure() {
    let opts = ConnectOptions::new("localhost:1883", 4242)
        .client_id("test")
        .clean_session(true)
        .keepalive(60);
    let pkt = build_connect(&opts);
    assert_eq!(pkt[0], 0x10);
    let body = &pkt[2..];
    assert_eq!(&body[0..6], &[0x00, 0x04, b'M', b'Q', b'T', b'T']);
    assert_eq!(body[6], 4);
}

#[test]
fn publish_packet_qos0() {
    let pkt = build_publish("test/t", b"hello", QoS::AtMostOnce, false, None);
    assert_eq!(pkt[0], 0x30);
}

#[test]
fn publish_packet_qos1() {
    let pkt = build_publish("test/t", b"hello", QoS::AtLeastOnce, false, Some(1));
    assert_eq!(pkt[0], 0x32);
}

#[test]
fn remaining_length_at_max_boundary() {
    let mut buf = Vec::new();
    encode_remaining_length(&mut buf, 268_435_455);
    assert_eq!(buf, vec![0xFF, 0xFF, 0xFF, 0x7F]);
}

#[test]
fn encode_string_at_max_boundary_ok() {
    let s = "a".repeat(0xFFFF);
    let mut buf = Vec::new();
    encode_string(&mut buf, &s);
    assert_eq!(buf[0], 0xFF);
    assert_eq!(buf[1], 0xFF);
    assert_eq!(buf.len(), 2 + 0xFFFF);
}

#[test]
fn subscribe_packet() {
    let pkt = build_subscribe("a/b/#", QoS::AtMostOnce, 42);
    assert_eq!(pkt[0], 0x82);
    assert_eq!(pkt[2], 0x00);
    assert_eq!(pkt[3], 42);
}

#[test]
fn disconnect_packet() {
    let pkt = build_disconnect();
    assert_eq!(pkt, vec![0xE0, 0x00]);
}

#[test]
fn pingreq_packet() {
    let pkt = build_pingreq();
    assert_eq!(pkt, vec![0xC0, 0x00]);
}

#[test]
fn pubrec_packet() {
    let pkt = build_pubrec(0x1234);
    assert_eq!(pkt, vec![0x50, 0x02, 0x12, 0x34]);
}

#[test]
fn pubrel_packet_has_reserved_flags() {
    let pkt = build_pubrel(0x0001);
    assert_eq!(pkt, vec![0x62, 0x02, 0x00, 0x01]);
}

#[test]
fn pubcomp_packet() {
    let pkt = build_pubcomp(0x0042);
    assert_eq!(pkt, vec![0x70, 0x02, 0x00, 0x42]);
}

#[test]
fn connect_with_will() {
    let opts = ConnectOptions::new("localhost:1883", 4242)
        .client_id("c")
        .will(WillMessage {
            topic: "lwt/topic".into(),
            payload: b"offline".to_vec(),
            qos: QoS::AtLeastOnce,
            retain: false,
        });
    let pkt = build_connect(&opts);
    assert_eq!(pkt[0], 0x10);
    let body = &pkt[2..];
    let flags = body[7];
    assert!(flags & 0x04 != 0);
    assert!(flags & (0x01 << 3) != 0);
}

#[test]
fn packet_parse_no_exec() {
    let raw = b"\x30\x0b\x00\x05hello world";
    assert_eq!(raw[0] & 0xF0, 0x30, "fixed header byte is data, not code");
    let m = parse_publish(raw[0] & 0x0F, &raw[2..]).unwrap();
    assert_eq!(m.topic, "hello");
    assert_eq!(m.payload, b" world".to_vec());
}

#[test]
fn connect_packet_full_bytes() {
    let opts = ConnectOptions::new("h:1", 1)
        .client_id("id")
        .username("u")
        .password(b"pw".to_vec())
        .clean_session(false)
        .keepalive(0x0102);
    let pkt = build_connect(&opts);
    assert_eq!(
        pkt,
        vec![
            0x10, 21, 0x00, 0x04, b'M', b'Q', b'T', b'T', 4, 0xC0, 0x01, 0x02, 0x00, 0x02, b'i',
            b'd', 0x00, 0x01, b'u', 0x00, 0x02, b'p', b'w'
        ]
    );
}

#[test]
fn connect_will_retain_and_qos2_flags() {
    let opts = ConnectOptions::new("h:1", 1).client_id("c").will(WillMessage {
        topic: "w".into(),
        payload: vec![9],
        qos: QoS::ExactlyOnce,
        retain: true,
    });
    let pkt = build_connect(&opts);
    // clean session, will, will QoS 2, will retain
    assert_eq!(pkt[9], 0x02 | 0x04 | 0x10 | 0x20);
}

#[test]
fn publish_packet_exact_bytes() {
    let pkt = build_publish("a/b", b"xy", QoS::ExactlyOnce, true, Some(0x0102));
    assert_eq!(
        pkt,
        vec![0x35, 9, 0x00, 0x03, b'a', b'/', b'b', 0x01, 0x02, b'x', b'y']
    );
    let pkt0 = build_publish("t", b"", QoS::AtMostOnce, false, Some(7));
    assert_eq!(pkt0, vec![0x30, 3, 0x00, 0x01, b't']);
}

#[test]
fn unsubscribe_and_puback_packets() {
    assert_eq!(
        build_unsubscribe("a/#", 0x0203),
        vec![0xA2, 7, 0x02, 0x03, 0x00, 0x03, b'a', b'/', b'#']
    );
    assert_eq!(build_puback(0x00FF), vec![0x40, 0x02, 0x00, 0xFF]);
    assert_eq!(
        build_subscribe("x", QoS::ExactlyOnce, 0x0100),
        vec![0x82, 6, 0x01, 0x00, 0x00, 0x01, b'x', 2]
    );
}

#[test]
fn remaining_length_encodings() {
    for (n, want) in [
        (0usize, vec![0x00u8]),
        (127, vec![0x7F]),
        (128, vec![0x80, 0x01]),
        (16_383, vec![0xFF, 0x7F]),
        (16_384, vec![0x80, 0x80, 0x01]),
        (2_097_152, vec![0x80, 0x80, 0x80, 0x01]),
    ] {
        let mut buf = Vec::new();
        encode_remaining_length(&mut buf, n);
        assert_eq!(buf, want);
        assert_eq!(
            decode_remaining_length(&buf),
            RemainingLength::Complete {
                value: n,
                consumed: want.len()
            }
        );
    }
}

#[test]
fn decode_remaining_length_edge_cases() {
    assert_eq!(decode_remaining_length(&[]), RemainingLength::Incomplete);
    assert_eq!(decode_remaining_length(&[0x80, 0x80]), RemainingLength::Incomplete);
    assert_eq!(
        decode_remaining_length(&[0xFF, 0xFF, 0xFF, 0xFF]),
        RemainingLength::Malformed
    );
    assert_eq!(
        decode_remaining_length(&[0xFF, 0xFF, 0xFF, 0xFF, 0x01]),
        RemainingLength::Malformed
    );
    assert_eq!(
        decode_remaining_length(&[0xFF, 0xFF, 0xFF, 0x7F]),
        RemainingLength::Complete {
            value: 268_435_455,
            consumed: 4
        }
    );
    assert_eq!(
        decode_remaining_length(&[0x05, 0xAA, 0xBB]),
        RemainingLength::Complete {
            value: 5,
            consumed: 1
        }
    );
}

#[test]
fn encode_bytes_and_header() {
    let mut buf = vec![0xAA];
    encode_bytes(&mut buf, &[1, 2, 3]);
    assert_eq!(buf, vec![0xAA, 0x00, 0x03, 1, 2, 3]);
    assert_eq!(packet_with_header(13, 0, &[]), vec![0xD0, 0x00]);
}

#[test]
fn packet_type_from_byte() {
    assert_eq!(PacketType::from_byte(1), PacketType::Connect);
    assert_eq!(PacketType::from_byte(3), PacketType::Publish);
    assert_eq!(PacketType::from_byte(14), PacketType::Disconnect);
    assert_eq!(PacketType::from_byte(0), PacketType::Unknown);
    assert_eq!(PacketType::from_byte(15), PacketType::Unknown);
}

#[test]
fn publish_roundtrip_through_parser() {
    let pkt = build_publish("s/t", b"payload", QoS::AtLeastOnce, true, Some(0xBEEF));
    let body_len = match decode_remaining_length(&pkt[1..]) {
        RemainingLength::Complete { value, consumed } => {
            assert_eq!(consumed, 1);
            value
        }
        other => panic!("unexpected {other:?}"),
    };
    let m = parse_publish(pkt[0] & 0x0F, &pkt[2..2 + body_len]).unwrap();
    assert_eq!(m.topic, "s/t");
    assert_eq!(m.payload, b"payload".to_vec());
    assert_eq!(m.qos, QoS::AtLeastOnce);
    assert!(m.retained);
    assert_eq!(m.packet_id, 0xBEEF);
}

#[test]
fn parse_publish_errors() {
    assert_eq!(parse_publish(0x06, &[0, 1, b't']), Err(PublishError::InvalidQoS));
    assert_eq!(parse_publish(0x00, &[0]), Err(PublishError::Truncated));
    assert_eq!(parse_publish(0x00, &[0, 5, b'a']), Err(PublishError::Truncated));
    assert_eq!(parse_publish(0x02, &[0, 1, b'a', 0]), Err(PublishError::Truncated));
    assert_eq!(parse_publish(0x00, &[0, 1, 0xFF]), Err(PublishError::InvalidTopic));
}

#[test]
fn packet_type_codes() {
    assert_eq!(PacketType::Connect.code(), 1);
    assert_eq!(PacketType::Publish.code(), 3);
    assert_eq!(PacketType::Disconnect.code(), 14);
    assert_eq!(PacketType::Unknown.code(), 0);
    for b in 1u8..=14 {
        assert_eq!(PacketType::from_byte(b).code(), b);
    }
}

#[test]
fn remaining_length_byte_form() {
    for n in [0usize, 1, 127, 128, 300, 16_383, 16_384, 2_097_151, 2_097_152, 268_435_455] {
        let mut buf = Vec::new();
        encode_remaining_length(&mut buf, n);
        assert!(!buf.is_empty() && buf.len() <= 4);
        let last = buf.len() - 1;
        for (i, b) in buf.iter().enumerate() {
            assert_eq!(b & 0x80 != 0, i < last);
        }
        if buf.len() > 1 {
            assert_ne!(buf[last], 0);
        }
        let mut value = 0usize;
        for (i, b) in buf.iter().enumerate() {
            value += ((b & 0x7F) as usize) << (7 * i);
        }
        assert_eq!(value, n);
    }
}
