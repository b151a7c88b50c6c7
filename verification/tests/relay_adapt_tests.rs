use rust_mqtt::adapt::{
    convert_for_interop, is_mqtt_protocol, send_qos, sentinel_or, subscriber_config, to_message,
};
use rust_mqtt::client::BackPressurePolicy;
use rust_mqtt::message::{Message, QoS};
use rust_mqtt::relay::{
    self, Context, MetaMap, Protocol, SubscriberOptions, Timestamp, Version,
};
use rust_mqtt::relay::offset_timestamp;
use rust_mqtt::Error;

#[test]
fn protocol_codes_and_names() {
    for (p, code, name) in [
        (Protocol::Can, 1, "CAN"),
        (Protocol::Dds, 2, "DDS"),
        (Protocol::Lin, 3, "LIN"),
        (Protocol::Mqtt, 4, "MQTT"),
        (Protocol::Rcp, 5, "RCP"),
        (Protocol::Someip, 6, "SOMEIP"),
    ] {
        assert_eq!(p.code(), code);
        assert_eq!(i32::from(p), code);
        assert_eq!(Protocol::try_from(code).unwrap(), p);
        assert_eq!(p.to_string(), name);
    }
    assert_eq!(Protocol::try_from(0).unwrap_err(), "unknown protocol: 0");
    assert_eq!(Protocol::try_from(-12).unwrap_err(), "unknown protocol: -12");
    assert!(Protocol::try_from(7).is_err());
    assert!(Protocol::from_code(-1).is_none());
}

#[test]
fn version_display_and_default() {
    assert_eq!(Version::default(), Version { major: 0, minor: 0, patch: 0 });
    assert_eq!(
        Version {
            major: 1,
            minor: -2,
            patch: 30
        }
        .to_string(),
        "1.-2.30"
    );
}

#[test]
fn meta_map_insert_replaces() {
    let mut m = MetaMap::new();
    assert!(m.is_empty());
    m.insert("k".to_string(), "1".to_string());
    m.insert("j".to_string(), "2".to_string());
    m.insert("k".to_string(), "3".to_string());
    assert_eq!(m.len(), 2);
    assert_eq!(m.get("k").unwrap(), "3");
    assert_eq!(m.get("j").unwrap(), "2");
    assert!(m.get("x").is_none());
    assert!(m.contains_key("j"));
}

#[test]
fn context_background_never_done() {
    let c = Context::background();
    assert!(!c.done());
    let d = Context::default();
    assert!(!d.done());
}

#[test]
fn context_timeout_expires() {
    let c = Context::with_timeout(std::time::Duration::from_millis(1));
    let start = std::time::Instant::now();
    while !c.done() && start.elapsed() < std::time::Duration::from_secs(5) {}
    assert!(c.done());
    let long = Context::with_timeout(std::time::Duration::from_secs(3600));
    assert!(!long.done());
}

#[test]
fn send_qos_reads_metadata() {
    let mut rm = relay::Message::new(Protocol::Mqtt, "t", b"x".to_vec());
    assert_eq!(send_qos(&rm), QoS::AtMostOnce);
    rm.meta.insert("mqtt.qos".to_string(), "2".to_string());
    assert_eq!(send_qos(&rm), QoS::ExactlyOnce);
    rm.meta.insert("mqtt.qos".to_string(), "1".to_string());
    assert_eq!(send_qos(&rm), QoS::AtLeastOnce);
    rm.meta.insert("mqtt.qos".to_string(), "01".to_string());
    assert_eq!(send_qos(&rm), QoS::AtMostOnce);
}

#[test]
fn close_preserves_real_error_kind() {
    assert_eq!(
        sentinel_or(&Error::Timeout, relay::Error::Closed),
        relay::Error::Timeout
    );
    assert_eq!(
        sentinel_or(&Error::TopicEmpty, relay::Error::Closed),
        relay::Error::Closed
    );
    assert_eq!(
        sentinel_or(&Error::ConnectionRefused(2), relay::Error::NotConnected),
        relay::Error::NotConnected
    );
}

#[test]
fn subscriber_config_from_options() {
    let c = subscriber_config(&SubscriberOptions {
        chan_depth: 0,
        back_pressure: relay::BackPressurePolicy::Block,
    });
    assert_eq!(c.channel_depth, 64);
    assert_eq!(c.back_pressure, BackPressurePolicy::Block);
    let c = subscriber_config(&SubscriberOptions {
        chan_depth: 7,
        back_pressure: relay::BackPressurePolicy::DropOldest,
    });
    assert_eq!(c.channel_depth, 7);
    assert_eq!(c.back_pressure, BackPressurePolicy::DropOldest);
    assert_eq!(SubscriberOptions::default().chan_depth(5), 5);
}

#[test]
fn convert_protocol_names() {
    assert!(is_mqtt_protocol("MQTT"));
    assert!(is_mqtt_protocol("mqtt"));
    assert!(is_mqtt_protocol("MqTt"));
    assert!(!is_mqtt_protocol("MQTT5"));
    assert!(!is_mqtt_protocol("DDS"));
    assert!(!is_mqtt_protocol(""));
}

#[test]
fn convert_for_interop_zeroes_timestamp() {
    let m = Message {
        topic: "a/b".into(),
        payload: b"p".to_vec(),
        qos: QoS::AtLeastOnce,
        ..Default::default()
    };
    let rm = convert_for_interop(&m).unwrap();
    assert_eq!(rm.timestamp, Timestamp { secs: 0, nanos: 0 });
    assert_eq!(rm.id, "a/b");
    assert_eq!(rm.meta.get("mqtt.qos").unwrap(), "1");
    let plain = to_message(&m);
    assert_eq!(plain.payload, rm.payload);
    let empty = Message::default();
    assert!(convert_for_interop(&empty).is_none());
}

#[test]
fn relay_message_new_and_now() {
    let rm = relay::Message::new(Protocol::Dds, "id-1", vec![1, 2]);
    assert_eq!(rm.protocol, Protocol::Dds);
    assert_eq!(rm.id, "id-1");
    assert_eq!(rm.payload, vec![1, 2]);
    assert_eq!(rm.seq, 0);
    assert!(rm.meta.is_empty());
    assert!(rm.timestamp.secs > 1_600_000_000);
    assert!(rm.timestamp.nanos < 1_000_000_000);
}

#[test]
fn offset_timestamps_around_the_epoch() {
    assert_eq!(offset_timestamp(true, 5, 7), Timestamp { secs: 5, nanos: 7 });
    assert_eq!(offset_timestamp(false, 5, 0), Timestamp { secs: -5, nanos: 0 });
    assert_eq!(
        offset_timestamp(false, 5, 250_000_000),
        Timestamp {
            secs: -6,
            nanos: 750_000_000
        }
    );
    assert_eq!(
        offset_timestamp(true, u64::MAX, 0),
        Timestamp {
            secs: i64::MAX,
            nanos: 0
        }
    );
    assert_eq!(
        offset_timestamp(false, u64::MAX, 1),
        Timestamp {
            secs: i64::MIN,
            nanos: 999_999_999
        }
    );
}
