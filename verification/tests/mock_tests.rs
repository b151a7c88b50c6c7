use rust_mqtt::client::{BackPressurePolicy, HealthStatus, SubscriberConfig};
use rust_mqtt::message::{Message, QoS};
use rust_mqtt::mock::{MockBroker, Received};
use rust_mqtt::Error;

fn recv(b: &mut MockBroker, id: u64) -> Option<Message> {
    match b.receive(id) {
        Received::Message(m) => Some(m),
        _ => None,
    }
}

fn cfg(depth: usize, p: BackPressurePolicy) -> SubscriberConfig {
    SubscriberConfig {
        channel_depth: depth,
        back_pressure: p,
    }
}

#[test]
fn basic_pubsub() {
    let mut b = MockBroker::new();
    let sub = b.subscribe("test/topic", SubscriberConfig::default()).unwrap();
    b.publish("test/topic", QoS::AtMostOnce, b"hello".to_vec()).unwrap();
    let msg = recv(&mut b, sub).unwrap();
    assert_eq!(msg.topic, "test/topic");
    assert_eq!(msg.payload, b"hello");
}

#[test]
fn wildcard_hash() {
    let mut b = MockBroker::new();
    let sub = b.subscribe("sensors/#", SubscriberConfig::default()).unwrap();
    b.publish("sensors/temp", QoS::AtMostOnce, b"21.5".to_vec()).unwrap();
    b.publish("sensors/pressure", QoS::AtMostOnce, b"101".to_vec()).unwrap();
    let m1 = recv(&mut b, sub).unwrap();
    let m2 = recv(&mut b, sub).unwrap();
    assert_eq!(m1.topic, "sensors/temp");
    assert_eq!(m2.topic, "sensors/pressure");
}

#[test]
fn wildcard_plus() {
    let mut b = MockBroker::new();
    let sub = b.subscribe("a/+/c", SubscriberConfig::default()).unwrap();
    b.publish("a/b/c", QoS::AtMostOnce, b"1".to_vec()).unwrap();
    b.publish("a/z/c", QoS::AtMostOnce, b"2".to_vec()).unwrap();
    b.publish("a/b/d", QoS::AtMostOnce, b"3".to_vec()).unwrap();
    let m1 = recv(&mut b, sub).unwrap();
    let m2 = recv(&mut b, sub).unwrap();
    assert_eq!(m1.payload, b"1");
    assert_eq!(m2.payload, b"2");
    assert!(matches!(b.receive(sub), Received::Empty));
}

#[test]
fn topic_empty_error() {
    let mut b = MockBroker::new();
    let err = b.publish("", QoS::AtMostOnce, b"x".to_vec()).unwrap_err();
    assert!(matches!(err, Error::TopicEmpty));
}

#[test]
fn closed_error() {
    let mut b = MockBroker::new();
    b.close();
    let err = b.publish("t", QoS::AtMostOnce, b"x".to_vec()).unwrap_err();
    assert!(matches!(err, Error::Closed));
}

#[test]
fn subscribe_empty_topic_error() {
    let mut b = MockBroker::new();
    let result = b.subscribe("", SubscriberConfig::default());
    assert!(matches!(result, Err(Error::TopicEmpty)));
}

#[test]
fn retained_delivered_on_subscribe() {
    let mut b = MockBroker::new();
    b.publish_retained("sensors/temp", QoS::AtMostOnce, b"42.0".to_vec()).unwrap();
    let sub = b.subscribe("sensors/#", SubscriberConfig::default()).unwrap();
    let msg = recv(&mut b, sub).unwrap();
    assert_eq!(msg.topic, "sensors/temp");
    assert_eq!(msg.payload, b"42.0");
    assert!(msg.retained);
}

#[test]
fn multiple_subscribers() {
    let mut b = MockBroker::new();
    let s1 = b.subscribe("#", SubscriberConfig::default()).unwrap();
    let s2 = b.subscribe("data/+", SubscriberConfig::default()).unwrap();
    b.publish("data/speed", QoS::AtMostOnce, b"100".to_vec()).unwrap();
    assert_eq!(recv(&mut b, s1).unwrap().topic, "data/speed");
    assert_eq!(recv(&mut b, s2).unwrap().topic, "data/speed");
}

#[test]
fn health_and_metrics() {
    let mut b = MockBroker::new();
    let h = b.health();
    assert_eq!(h.status, HealthStatus::Healthy);
    assert!(h.connected);
    b.publish("t", QoS::AtMostOnce, b"x".to_vec()).unwrap();
    let m = b.metrics();
    assert_eq!(m.write_count, 1);
    assert_eq!(m.bytes_written, 1);
}

#[test]
fn close_idempotent() {
    let mut b = MockBroker::new();
    b.close();
    b.close();
    assert!(b.is_closed());
    assert_eq!(b.health().status, HealthStatus::Down);
}

#[test]
fn system_topic_no_wildcard_match() {
    let mut b = MockBroker::new();
    let sub = b.subscribe("#", SubscriberConfig::default()).unwrap();
    b.publish("$SYS/broker/version", QoS::AtMostOnce, b"1".to_vec()).unwrap();
    assert!(matches!(b.receive(sub), Received::Empty));
}

#[test]
fn subscribe_returns_independent_subs() {
    let mut b = MockBroker::new();
    let s1 = b.subscribe("t", SubscriberConfig::default()).unwrap();
    let s2 = b.subscribe("t", SubscriberConfig::default()).unwrap();
    b.publish("t", QoS::AtMostOnce, b"msg".to_vec()).unwrap();
    assert_eq!(recv(&mut b, s1).unwrap().payload, b"msg");
    assert_eq!(recv(&mut b, s2).unwrap().payload, b"msg");
}

#[test]
fn sub_back_pressure_drop_newest() {
    let mut b = MockBroker::new();
    let sub = b.subscribe("t", cfg(2, BackPressurePolicy::DropNewest)).unwrap();
    for i in 0u8..10 {
        b.publish("t", QoS::AtMostOnce, vec![i]).unwrap();
    }
    let mut got = vec![];
    while let Some(m) = recv(&mut b, sub) {
        got.push(m.payload[0]);
    }
    assert!(got.len() <= 2);
    assert_eq!(got, vec![0, 1]);
    assert_eq!(b.metrics().drop_count, 8);
}

#[test]
fn sub_back_pressure_drop_oldest() {
    let mut b = MockBroker::new();
    let sub = b.subscribe("t", cfg(3, BackPressurePolicy::DropOldest)).unwrap();
    for i in 0u8..10 {
        b.publish("t", QoS::AtMostOnce, vec![i]).unwrap();
    }
    let mut got = vec![];
    while let Some(m) = recv(&mut b, sub) {
        got.push(m.payload[0]);
    }
    assert!(got.len() <= 10);
    assert_eq!(got, vec![7, 8, 9]);
}

#[test]
fn sub_back_pressure_block() {
    let mut b = MockBroker::new();
    let sub = b.subscribe("t", cfg(2, BackPressurePolicy::Block)).unwrap();
    for i in 0u8..5 {
        b.publish("t", QoS::AtMostOnce, vec![i]).unwrap();
    }
    let mut got = vec![];
    while let Some(m) = recv(&mut b, sub) {
        got.push(m.payload[0]);
    }
    assert_eq!(got, vec![0, 1, 2, 3, 4]);
}

#[test]
fn conn_closed_publish_errors() {
    let mut b = MockBroker::new();
    b.close();
    let result = b.publish("t", QoS::AtMostOnce, vec![]);
    assert!(matches!(result, Err(Error::Closed)));
}

#[test]
fn errors_are_result_not_panic() {
    let mut b = MockBroker::new();
    b.close();
    assert!(b.publish("t", QoS::AtMostOnce, vec![]).is_err());
    assert!(b.subscribe("t", SubscriberConfig::default()).is_err());
}

#[test]
fn qos_at_least_once_available() {
    assert_eq!(QoS::AtLeastOnce as u8, 1);
    let mut b = MockBroker::new();
    let sub = b.subscribe("s", SubscriberConfig::default()).unwrap();
    b.publish("s", QoS::AtLeastOnce, b"42".to_vec()).unwrap();
    let m = recv(&mut b, sub).unwrap();
    assert_eq!(m.payload, b"42");
    assert_eq!(m.qos, QoS::AtLeastOnce);
}

#[test]
fn back_pressure_prevents_infinite_growth() {
    let mut b = MockBroker::new();
    let sub = b.subscribe("flood", cfg(4, BackPressurePolicy::DropNewest)).unwrap();
    for i in 0u32..1000 {
        let _ = b.publish("flood", QoS::AtMostOnce, vec![i as u8]);
    }
    let mut n = 0;
    while recv(&mut b, sub).is_some() {
        n += 1;
    }
    assert_eq!(n, 4);
}

#[test]
fn subscription_count_observable() {
    let mut b = MockBroker::new();
    assert_eq!(b.subscription_count(), 0);
    let _s1 = b.subscribe("a", SubscriberConfig::default()).unwrap();
    assert_eq!(b.subscription_count(), 1);
    let s2 = b.subscribe("b", SubscriberConfig::default()).unwrap();
    assert_eq!(b.subscription_count(), 2);
    b.unsubscribe(s2);
    assert_eq!(b.subscription_count(), 1);
}

#[test]
fn health_provider_status() {
    let b = MockBroker::new();
    assert_eq!(b.health().status, HealthStatus::Healthy);
    assert_eq!(b.health().endpoint, "mock://in-process");
}

#[test]
fn metrics_provider_snapshot() {
    let mut b = MockBroker::new();
    let _s = b.subscribe("t", SubscriberConfig::default()).unwrap();
    b.publish("t", QoS::AtMostOnce, b"a".to_vec()).unwrap();
    let snap = b.metrics();
    assert!(snap.write_count >= 1, "write_count must count publishes");
    assert_eq!(snap.deliver_count, 1);
    assert_eq!(snap.bytes_delivered, 1);
}

#[test]
fn closed_broker_ends_subscriptions_after_draining() {
    let mut b = MockBroker::new();
    let sub = b.subscribe("t", SubscriberConfig::default()).unwrap();
    b.publish("t", QoS::AtMostOnce, b"last".to_vec()).unwrap();
    b.close();
    assert_eq!(recv(&mut b, sub).unwrap().payload, b"last");
    assert!(matches!(b.receive(sub), Received::Closed));
    assert!(matches!(b.receive(999), Received::Closed));
}

#[test]
fn retained_store_and_clear() {
    let mut b = MockBroker::new();
    b.publish_retained("a", QoS::AtMostOnce, b"1".to_vec()).unwrap();
    b.publish_retained("b", QoS::AtMostOnce, b"2".to_vec()).unwrap();
    b.publish_retained("a", QoS::AtLeastOnce, b"3".to_vec()).unwrap();
    let r = b.retained_messages();
    assert_eq!(r.len(), 2);
    assert_eq!(r[0].topic, "a");
    assert_eq!(r[0].payload, b"3");
    assert_eq!(r[1].topic, "b");
    b.publish_retained("b", QoS::AtMostOnce, vec![]).unwrap();
    assert_eq!(b.retained_messages().len(), 1);
    b.clear_retained();
    assert!(b.retained_messages().is_empty());
}

#[test]
fn inject_reaches_matching_subscribers_without_counting() {
    let mut b = MockBroker::new();
    let sub = b.subscribe("x/#", SubscriberConfig::default()).unwrap();
    let m = Message {
        topic: "x/y".into(),
        payload: b"in".to_vec(),
        qos: QoS::ExactlyOnce,
        ..Default::default()
    };
    b.inject(&m);
    let got = recv(&mut b, sub).unwrap();
    assert_eq!(got, m);
    assert_eq!(b.metrics().write_count, 0);
}

#[test]
fn mock_publish_subscribe() {
    let mut b = MockBroker::new();
    let sub = b.subscribe("t/+", SubscriberConfig::default()).unwrap();
    b.publish("t/a", QoS::AtMostOnce, b"data".to_vec()).unwrap();
    let msg = recv(&mut b, sub).unwrap();
    assert_eq!(msg.topic, "t/a");
    assert_eq!(msg.payload, b"data");
}

#[test]
fn mock_hash_wildcard() {
    let mut b = MockBroker::new();
    let sub = b.subscribe("sensors/#", SubscriberConfig::default()).unwrap();
    for i in 0..3u8 {
        b.publish(&format!("sensors/s{}", i), QoS::AtMostOnce, vec![i]).unwrap();
    }
    for i in 0..3u8 {
        assert_eq!(recv(&mut b, sub).unwrap().payload, vec![i]);
    }
}

#[test]
fn mock_no_cross_topic_delivery() {
    let mut b = MockBroker::new();
    let sub = b.subscribe("a/b", SubscriberConfig::default()).unwrap();
    b.publish("x/y", QoS::AtMostOnce, b"nope".to_vec()).unwrap();
    b.publish("a/b", QoS::AtMostOnce, b"yes".to_vec()).unwrap();
    assert_eq!(recv(&mut b, sub).unwrap().payload, b"yes");
}

#[test]
fn mock_closed_errors() {
    let mut b = MockBroker::new();
    b.close();
    assert!(b.publish("t", QoS::AtMostOnce, vec![]).is_err());
    assert!(b.subscribe("t", SubscriberConfig::default()).is_err());
}

#[test]
fn mock_retained_delivery() {
    let mut b = MockBroker::new();
    b.publish_retained("sensor/t", QoS::AtMostOnce, b"42".to_vec()).unwrap();
    let sub = b.subscribe("sensor/+", SubscriberConfig::default()).unwrap();
    assert_eq!(recv(&mut b, sub).unwrap().payload, b"42");
}

#[test]
fn mock_channel_depth_config() {
    let mut b = MockBroker::new();
    let sub = b
        .subscribe(
            "#",
            SubscriberConfig {
                channel_depth: 10,
                ..Default::default()
            },
        )
        .unwrap();
    for i in 0u8..5 {
        b.publish("t", QoS::AtMostOnce, vec![i]).unwrap();
    }
    for i in 0u8..5 {
        assert_eq!(recv(&mut b, sub).unwrap().payload, vec![i]);
    }
}

#[test]
fn mock_system_topic_no_hash() {
    let mut b = MockBroker::new();
    let sub = b.subscribe("#", SubscriberConfig::default()).unwrap();
    b.publish("$SYS/broker/version", QoS::AtMostOnce, b"1.0".to_vec()).unwrap();
    b.publish("normal/topic", QoS::AtMostOnce, b"ok".to_vec()).unwrap();
    assert_eq!(recv(&mut b, sub).unwrap().topic, "normal/topic");
}

#[test]
fn no_unsafe_in_lib() {
    let _ = rust_mqtt::SPEC_VERSION;
}

#[test]
fn unsubscribe_removes_the_new_subscription() {
    let mut b = MockBroker::new();
    let a = b.subscribe("x", SubscriberConfig::default()).unwrap();
    let c = b.subscribe("x", SubscriberConfig::default()).unwrap();
    assert_eq!(a, 1);
    assert_eq!(c, 2);
    b.unsubscribe(c);
    assert_eq!(b.subscription_count(), 1);
    b.publish("x", QoS::AtMostOnce, b"v".to_vec()).unwrap();
    assert!(recv(&mut b, a).is_some());
    assert!(matches!(b.receive(c), Received::Closed));
}

fn retained_three(b: &mut MockBroker) {
    b.publish_retained("r/1", QoS::AtMostOnce, b"one".to_vec()).unwrap();
    b.publish_retained("other", QoS::AtMostOnce, b"x".to_vec()).unwrap();
    b.publish_retained("r/2", QoS::AtMostOnce, b"two".to_vec()).unwrap();
    b.publish_retained("r/3", QoS::AtMostOnce, b"three".to_vec()).unwrap();
}

fn drain(b: &mut MockBroker, id: u64) -> Vec<Vec<u8>> {
    let mut out = Vec::new();
    while let Some(m) = recv(b, id) {
        assert!(m.retained);
        out.push(m.payload);
    }
    out
}

#[test]
fn retained_replay_bounded_by_depth_per_policy() {
    let mut b = MockBroker::new();
    retained_three(&mut b);
    let newest = b.subscribe("r/+", cfg(2, BackPressurePolicy::DropNewest)).unwrap();
    let oldest = b.subscribe("r/+", cfg(2, BackPressurePolicy::DropOldest)).unwrap();
    let block = b.subscribe("r/+", cfg(2, BackPressurePolicy::Block)).unwrap();
    assert_eq!(drain(&mut b, newest), vec![b"one".to_vec(), b"two".to_vec()]);
    assert_eq!(drain(&mut b, oldest), vec![b"two".to_vec(), b"three".to_vec()]);
    assert_eq!(
        drain(&mut b, block),
        vec![b"one".to_vec(), b"two".to_vec(), b"three".to_vec()]
    );
}

#[test]
fn publish_retained_replaces_and_removes_by_topic() {
    let mut b = MockBroker::new();
    retained_three(&mut b);
    b.publish_retained("r/2", QoS::AtLeastOnce, b"again".to_vec()).unwrap();
    let held = b.retained_messages();
    assert_eq!(held.len(), 4);
    assert_eq!(held[2].topic, "r/2");
    assert_eq!(held[2].payload, b"again".to_vec());
    assert_eq!(held[2].qos, QoS::AtLeastOnce);
    assert!(held[2].retained);
    b.publish_retained("r/1", QoS::AtMostOnce, Vec::new()).unwrap();
    let held = b.retained_messages();
    let topics: Vec<&str> = held.iter().map(|m| m.topic.as_str()).collect();
    assert_eq!(topics, vec!["other", "r/2", "r/3"]);
    b.publish_retained("none", QoS::AtMostOnce, Vec::new()).unwrap();
    assert_eq!(b.retained_messages().len(), 3);
}

#[test]
fn unsubscribe_lowers_count_only_for_open_subscriptions() {
    let mut b = MockBroker::new();
    let a = b.subscribe("a", SubscriberConfig::default()).unwrap();
    let _c = b.subscribe("c", SubscriberConfig::default()).unwrap();
    b.unsubscribe(99);
    assert_eq!(b.subscription_count(), 2);
    b.unsubscribe(a);
    assert_eq!(b.subscription_count(), 1);
    b.unsubscribe(a);
    assert_eq!(b.subscription_count(), 1);
    b.close();
    assert_eq!(b.subscription_count(), 0);
}
