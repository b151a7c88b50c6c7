use rust_mqtt::client::{BackPressurePolicy, HealthStatus, SubscriberConfig};
use rust_mqtt::message::QoS;
use rust_mqtt::v3::packet::{build_publish, build_subscribe, build_unsubscribe};
use rust_mqtt::v3::session::{connack_step, ClientAction, ClientSession, ConnackStep};
use rust_mqtt::v3::{ConnectOptions, WillMessage};
use rust_mqtt::Error;

#[test]
fn conn_options_defaults() {
    let opts = ConnectOptions::new("localhost:1883", 4242);
    assert_eq!(opts.address, "localhost:1883");
    assert!(opts.clean_session);
    assert!(opts.keepalive_secs > 0, "keepalive must have a default");
}

#[test]
fn conn_options_default_values() {
    let opts = ConnectOptions::new("localhost:1883", 4242);
    assert_eq!(opts.client_id, "rust-mqtt-4242");
    assert_eq!(opts.keepalive_secs, 60);
    assert_eq!(opts.connect_timeout, std::time::Duration::from_secs(10));
    assert!(opts.username.is_none());
    assert!(opts.password.is_none());
    assert!(opts.will.is_none());
    let opts = opts
        .username("bob")
        .connect_timeout(std::time::Duration::from_millis(5));
    assert_eq!(opts.username.as_deref(), Some("bob"));
    assert_eq!(opts.connect_timeout, std::time::Duration::from_millis(5));
}

#[test]
fn conn_lwt_encoded() {
    let mut opts = ConnectOptions::new("localhost:1883", 4242).client_id("lwt-test");
    opts.will = Some(WillMessage {
        topic: "will/topic".into(),
        payload: b"offline".to_vec(),
        qos: QoS::AtLeastOnce,
        retain: true,
    });
    assert!(opts.will.is_some());
    let will = opts.will.unwrap();
    assert_eq!(will.topic, "will/topic");
    assert_eq!(will.payload, b"offline");
    assert_eq!(will.qos, QoS::AtLeastOnce);
    assert!(will.retain);
}

#[test]
fn connack_steps() {
    assert!(matches!(connack_step(&[]), ConnackStep::NeedMore));
    assert!(matches!(connack_step(&[0x20]), ConnackStep::NeedMore));
    assert!(matches!(connack_step(&[0x20, 2, 0]), ConnackStep::NeedMore));
    assert!(matches!(connack_step(&[0x20, 2, 0, 0]), ConnackStep::Accepted));
    match connack_step(&[0x20, 2, 0, 5]) {
        ConnackStep::Failed(Error::ConnectionRefused(5)) => {}
        _ => panic!("a non-zero return code must refuse"),
    }
    match connack_step(&[0x3A]) {
        ConnackStep::Failed(Error::Protocol(s)) => {
            assert_eq!(s, "expected CONNACK (0x20), got 0x3A")
        }
        _ => panic!("a wrong first byte must fail"),
    }
    match connack_step(&[0x20, 1]) {
        ConnackStep::Failed(Error::Protocol(s)) => assert_eq!(s, "CONNACK packet too short"),
        _ => panic!("a short CONNACK must fail"),
    }
}

#[test]
fn packet_id_monotonic() {
    let mut s = ClientSession::new("b:1");
    let ids: Vec<u16> = (0..100).map(|_| s.next_pid()).collect();
    for w in ids.windows(2) {
        assert!(w[1] > w[0], "packet IDs must be strictly monotonically increasing");
    }
    assert_eq!(ids[0], 1);
}

#[test]
fn packet_id_skips_zero_on_wrap() {
    let mut s = ClientSession::new("b:1");
    let mut last = 0u16;
    for _ in 0..65535 {
        last = s.next_pid();
    }
    assert_eq!(last, 65535);
    assert_eq!(s.next_pid(), 1);
    assert_eq!(s.next_pid(), 2);
}

#[test]
fn publish_qos0_sends_plain_packet() {
    let mut s = ClientSession::new("b:1");
    let p = s.publish("t/x", QoS::AtMostOnce, b"hi").unwrap();
    assert_eq!(p.packet_id, None);
    assert_eq!(p.packet, build_publish("t/x", b"hi", QoS::AtMostOnce, false, None));
}

#[test]
fn publish_errors() {
    let mut s = ClientSession::new("b:1");
    assert!(matches!(s.publish("", QoS::AtMostOnce, b"x"), Err(Error::TopicEmpty)));
    assert_eq!(s.close(), Some(vec![0xE0, 0x00]));
    assert_eq!(s.close(), None);
    assert!(matches!(s.publish("t", QoS::AtMostOnce, b"x"), Err(Error::Closed)));
    assert!(matches!(
        s.subscribe("t", QoS::AtMostOnce, SubscriberConfig::default()),
        Err(Error::Closed)
    ));
}

#[test]
fn qos1_publish_completes_on_puback() {
    let mut s = ClientSession::new("b:1");
    let p = s.publish("t", QoS::AtLeastOnce, b"x").unwrap();
    assert_eq!(p.packet_id, Some(1));
    assert_eq!(p.packet, build_publish("t", b"x", QoS::AtLeastOnce, false, Some(1)));
    assert!(matches!(s.on_packet(0x40, &[0, 2]), ClientAction::Nothing));
    assert!(matches!(s.on_packet(0x40, &[0, 1]), ClientAction::Complete(1)));
    assert!(matches!(s.on_packet(0x40, &[0, 1]), ClientAction::Nothing));
}

#[test]
fn qos2_publish_full_handshake() {
    let mut s = ClientSession::new("b:1");
    let p = s.publish("q2", QoS::ExactlyOnce, b"once").unwrap();
    assert_eq!(p.packet_id, Some(1));
    assert_eq!(p.packet[0], 0x34);
    // PUBCOMP before PUBREC does nothing.
    assert!(matches!(s.on_packet(0x70, &[0, 1]), ClientAction::Nothing));
    match s.on_packet(0x50, &[0, 1]) {
        ClientAction::Send(pkt) => assert_eq!(pkt, vec![0x62, 0x02, 0x00, 0x01]),
        _ => panic!("PUBREC must be answered with PUBREL"),
    }
    assert!(matches!(s.on_packet(0x70, &[0, 1]), ClientAction::Complete(1)));
    assert!(matches!(s.on_packet(0x70, &[0, 1]), ClientAction::Nothing));
}

#[test]
fn forget_drops_waiting_publish() {
    let mut s = ClientSession::new("b:1");
    let p = s.publish("t", QoS::AtLeastOnce, b"x").unwrap();
    s.forget(p.packet_id.unwrap());
    assert!(matches!(s.on_packet(0x40, &[0, 1]), ClientAction::Nothing));
}

#[test]
fn subscribe_and_deliver() {
    let mut s = ClientSession::new("b:1");
    let a = s
        .subscribe(
            "sensors/#",
            QoS::AtLeastOnce,
            SubscriberConfig {
                channel_depth: 0,
                back_pressure: BackPressurePolicy::DropOldest,
            },
        )
        .unwrap();
    assert_eq!(a.id, 1);
    assert_eq!(a.depth, 64);
    assert_eq!(a.packet, build_subscribe("sensors/#", QoS::AtLeastOnce, 1));
    let b = s
        .subscribe(
            "sensors/temp",
            QoS::AtMostOnce,
            SubscriberConfig {
                channel_depth: 3,
                back_pressure: BackPressurePolicy::DropNewest,
            },
        )
        .unwrap();
    assert_eq!(b.id, 2);
    assert_eq!(b.depth, 3);
    let pkt = build_publish("sensors/temp", b"21", QoS::AtMostOnce, true, None);
    match s.on_packet(pkt[0], &pkt[2..]) {
        ClientAction::Deliver {
            message,
            subscriptions,
        } => {
            assert_eq!(message.topic, "sensors/temp");
            assert_eq!(message.payload, b"21".to_vec());
            assert!(message.retained);
            assert_eq!(subscriptions, vec![1, 2]);
        }
        _ => panic!("a PUBLISH must be delivered"),
    }
    let other = build_publish("other", b"1", QoS::AtMostOnce, false, None);
    match s.on_packet(other[0], &other[2..]) {
        ClientAction::Deliver { subscriptions, .. } => assert!(subscriptions.is_empty()),
        _ => panic!("a PUBLISH must be delivered"),
    }
    assert_eq!(s.unsubscribe(1), Some(build_unsubscribe("sensors/#", 3)));
    assert_eq!(s.unsubscribe(1), None);
}

#[test]
fn qos3_publish_from_broker_closes_client_connection() {
    let mut s = ClientSession::new("127.0.0.1:1");
    let topic = b"malformed/qos3";
    let mut body = Vec::new();
    body.push((topic.len() >> 8) as u8);
    body.push(topic.len() as u8);
    body.extend_from_slice(topic);
    body.extend_from_slice(b"x");
    assert!(matches!(s.on_packet((3u8 << 4) | 0x06, &body), ClientAction::Close));
    assert_eq!(s.health().status, HealthStatus::Down);
    assert!(s.is_closed());
}

#[test]
fn disconnect_and_silence() {
    let mut s = ClientSession::new("b:1");
    assert!(matches!(s.on_packet(0xD0, &[]), ClientAction::Nothing));
    match s.on_silence(30) {
        ClientAction::Send(p) => assert_eq!(p, vec![0xC0, 0x00]),
        _ => panic!("keepalive must ping"),
    }
    assert!(!s.is_closed());
    let h = s.health();
    assert_eq!(h.status, HealthStatus::Healthy);
    assert!(h.connected);
    assert_eq!(h.endpoint, "b:1");
    assert!(matches!(s.on_packet(0xE0, &[]), ClientAction::Close));
    assert!(s.is_closed());
    let mut t = ClientSession::new("b:1");
    assert!(matches!(t.on_silence(0), ClientAction::Close));
    assert!(t.is_closed());
    assert_eq!(t.metrics(), rust_mqtt::MetricsSnapshot::default());
}
