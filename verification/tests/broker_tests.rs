use rust_mqtt::broker::{build_publish_pkt, connect_reply, BrokerCore, Reaction};
use rust_mqtt::message::QoS;
use rust_mqtt::v3::packet::{build_publish, build_subscribe, build_unsubscribe};

fn body(pkt: &[u8]) -> &[u8] {
    &pkt[2..]
}

fn packets_for(r: &Reaction, session: u64) -> Vec<Vec<u8>> {
    r.out
        .iter()
        .filter(|o| o.session == session)
        .map(|o| o.packet.clone())
        .collect()
}

#[test]
fn connack_only_for_connect() {
    assert_eq!(connect_reply(0x10), Some(vec![0x20, 0x02, 0x00, 0x00]));
    assert_eq!(connect_reply(0x1F), Some(vec![0x20, 0x02, 0x00, 0x00]));
    assert_eq!(connect_reply(0x30), None);
    assert_eq!(connect_reply(0x00), None);
}

#[test]
fn build_publish_pkt_frames() {
    assert_eq!(
        build_publish_pkt("t", b"xy", QoS::AtMostOnce, true, None),
        vec![0x31, 5, 0x00, 0x01, b't', b'x', b'y']
    );
    assert_eq!(
        build_publish_pkt("t", b"", QoS::AtLeastOnce, false, Some(0x0A0B)),
        vec![0x32, 5, 0x00, 0x01, b't', 0x0A, 0x0B]
    );
    assert_eq!(
        build_publish_pkt("t", b"z", QoS::AtMostOnce, false, Some(1)),
        vec![0x30, 6, 0x00, 0x01, b't', 0x00, 0x01, b'z']
    );
}

#[test]
fn broker_pubsub_roundtrip() {
    let mut core = BrokerCore::new();
    let mut c1 = core.open_session();
    let mut c2 = core.open_session();
    let sub = build_subscribe("test/#", QoS::AtMostOnce, 1);
    let r = core.handle_packet(&mut c1, sub[0], body(&sub));
    assert_eq!(packets_for(&r, c1.id()), vec![vec![0x90, 0x03, 0x00, 0x01, 0x00]]);
    let publ = build_publish("test/topic", b"hello", QoS::AtMostOnce, false, None);
    let r = core.handle_packet(&mut c2, publ[0], body(&publ));
    assert_eq!(
        packets_for(&r, c1.id()),
        vec![build_publish("test/topic", b"hello", QoS::AtMostOnce, false, None)]
    );
    assert!(packets_for(&r, c2.id()).is_empty());
    assert!(!r.disconnect);
}

#[test]
fn broker_qos1_acked_after_fan_out() {
    let mut core = BrokerCore::new();
    let mut s = core.open_session();
    let mut p = core.open_session();
    let sub = build_subscribe("a", QoS::AtLeastOnce, 9);
    core.handle_packet(&mut s, sub[0], body(&sub));
    let publ = build_publish("a", b"1", QoS::AtLeastOnce, false, Some(0x0203));
    let r = core.handle_packet(&mut p, publ[0], body(&publ));
    assert_eq!(r.out.len(), 2);
    assert_eq!(r.out[0].session, s.id());
    assert_eq!(r.out[0].packet, build_publish("a", b"1", QoS::AtMostOnce, false, None));
    assert_eq!(r.out[1].session, p.id());
    assert_eq!(r.out[1].packet, vec![0x40, 0x02, 0x02, 0x03]);
}

#[test]
fn broker_qos2_exactly_once_roundtrip() {
    let mut core = BrokerCore::new();
    let mut sub_s = core.open_session();
    let mut pub_s = core.open_session();
    let sub = build_subscribe("qos2/#", QoS::AtMostOnce, 1);
    core.handle_packet(&mut sub_s, sub[0], body(&sub));
    let publ = build_publish("qos2/topic", b"exactly-once", QoS::ExactlyOnce, false, Some(7));
    let r = core.handle_packet(&mut pub_s, publ[0], body(&publ));
    assert_eq!(r.out.len(), 1);
    assert_eq!(r.out[0].session, pub_s.id());
    assert_eq!(r.out[0].packet, vec![0x50, 0x02, 0x00, 0x07]);
    let r = core.handle_packet(&mut pub_s, 0x62, &[0x00, 0x07]);
    assert_eq!(
        packets_for(&r, sub_s.id()),
        vec![build_publish("qos2/topic", b"exactly-once", QoS::AtMostOnce, false, None)]
    );
    assert_eq!(packets_for(&r, pub_s.id()), vec![vec![0x70, 0x02, 0x00, 0x07]]);
    let r = core.handle_packet(&mut pub_s, 0x62, &[0x00, 0x07]);
    assert!(packets_for(&r, sub_s.id()).is_empty());
    assert_eq!(packets_for(&r, pub_s.id()), vec![vec![0x70, 0x02, 0x00, 0x07]]);
}

#[test]
fn retained_replayed_to_later_subscriber() {
    let mut core = BrokerCore::new();
    let mut p = core.open_session();
    let publ = build_publish("sensors/temp", b"42", QoS::AtMostOnce, true, None);
    core.handle_packet(&mut p, publ[0], body(&publ));
    let publ2 = build_publish("sensors/temp", b"43", QoS::AtMostOnce, true, None);
    core.handle_packet(&mut p, publ2[0], body(&publ2));
    let mut s = core.open_session();
    let sub = build_subscribe("sensors/+", QoS::ExactlyOnce, 5);
    let r = core.handle_packet(&mut s, sub[0], body(&sub));
    assert_eq!(
        packets_for(&r, s.id()),
        vec![
            build_publish("sensors/temp", b"43", QoS::AtMostOnce, true, None),
            vec![0x90, 0x03, 0x00, 0x05, 0x02],
        ]
    );
}

#[test]
fn unsubscribe_removes_filter_for_everyone() {
    let mut core = BrokerCore::new();
    let mut a = core.open_session();
    let mut b = core.open_session();
    let sub = build_subscribe("x", QoS::AtMostOnce, 1);
    core.handle_packet(&mut a, sub[0], body(&sub));
    core.handle_packet(&mut b, sub[0], body(&sub));
    let uns = build_unsubscribe("x", 2);
    let r = core.handle_packet(&mut a, uns[0], body(&uns));
    assert_eq!(packets_for(&r, a.id()), vec![vec![0xB0, 0x02, 0x00, 0x02]]);
    let publ = build_publish("x", b"v", QoS::AtMostOnce, false, None);
    let r = core.handle_packet(&mut a, publ[0], body(&publ));
    assert!(r.out.is_empty());
}

#[test]
fn closed_session_gets_nothing() {
    let mut core = BrokerCore::new();
    let mut a = core.open_session();
    let mut b = core.open_session();
    let sub = build_subscribe("#", QoS::AtMostOnce, 1);
    core.handle_packet(&mut a, sub[0], body(&sub));
    core.handle_packet(&mut b, sub[0], body(&sub));
    let a_id = a.id();
    core.close_session(a);
    let publ = build_publish("t", b"v", QoS::AtMostOnce, false, None);
    let r = core.handle_packet(&mut b, publ[0], body(&publ));
    assert!(packets_for(&r, a_id).is_empty());
    assert_eq!(packets_for(&r, b.id()).len(), 1);
}

#[test]
fn ping_disconnect_and_ignored_packets() {
    let mut core = BrokerCore::new();
    let mut s = core.open_session();
    let r = core.handle_packet(&mut s, 0xC0, &[]);
    assert_eq!(packets_for(&r, s.id()), vec![vec![0xD0, 0x00]]);
    assert!(!r.disconnect);
    let r = core.handle_packet(&mut s, 0xE0, &[]);
    assert!(r.out.is_empty());
    assert!(r.disconnect);
    let r = core.handle_packet(&mut s, 0x40, &[0, 1]);
    assert!(r.out.is_empty());
    assert!(!r.disconnect);
    // A PUBLISH cut short inside its topic is ignored.
    let r = core.handle_packet(&mut s, 0x30, &[0, 9, b'a']);
    assert!(r.out.is_empty());
    // A SUBSCRIBE cut short is ignored.
    let r = core.handle_packet(&mut s, 0x82, &[0, 1, 0]);
    assert!(r.out.is_empty());
}

#[test]
fn broker_publish_without_room_for_pid_uses_zero() {
    let mut core = BrokerCore::new();
    let mut s = core.open_session();
    // QoS 1 flags, topic "t", no packet identifier bytes: PUBACK with id 0.
    let r = core.handle_packet(&mut s, 0x32, &[0, 1, b't']);
    assert_eq!(packets_for(&r, s.id()), vec![vec![0x40, 0x02, 0x00, 0x00]]);
}

#[test]
fn session_ids_are_distinct() {
    let mut core = BrokerCore::new();
    let a = core.open_session();
    let b = core.open_session();
    assert_eq!(a.id(), 1);
    assert_eq!(b.id(), 2);
}
