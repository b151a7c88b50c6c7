use rust_mqtt::adapt::{from_message, to_message};
use rust_mqtt::message::{Message, QoS, UserProperty};
use rust_mqtt::relay::{Protocol, Version};
use rust_mqtt::BackPressurePolicy;

#[test]
fn qos_roundtrip() {
    for (v, expected) in [
        (0u8, QoS::AtMostOnce),
        (1, QoS::AtLeastOnce),
        (2, QoS::ExactlyOnce),
    ] {
        let q = QoS::try_from(v).unwrap();
        assert_eq!(q, expected);
        assert_eq!(u8::from(q), v);
    }
}

#[test]
fn qos_invalid() {
    assert!(QoS::try_from(3u8).is_err());
}

#[test]
fn qos_try_from_valid() {
    assert_eq!(QoS::try_from(0u8).unwrap(), QoS::AtMostOnce);
    assert_eq!(QoS::try_from(1u8).unwrap(), QoS::AtLeastOnce);
    assert_eq!(QoS::try_from(2u8).unwrap(), QoS::ExactlyOnce);
    assert!(QoS::try_from(3u8).is_err());
}

#[test]
fn qos_at_least_once_value() {
    assert_eq!(QoS::AtLeastOnce as u8, 1);
}

#[test]
fn qos_exactly_once_value() {
    assert_eq!(QoS::ExactlyOnce as u8, 2);
}

#[test]
fn qos_invalid_rejected() {
    assert!(QoS::try_from(3u8).is_err());
    assert!(QoS::try_from(255u8).is_err());
}

#[test]
fn qos_invalid_error_names_value() {
    let e = QoS::try_from(7u8).unwrap_err();
    assert_eq!(e, "invalid QoS: 7");
    assert_eq!(QoS::try_from(255u8).unwrap_err(), "invalid QoS: 255");
    assert_eq!(QoS::ExactlyOnce.to_string(), "2");
    assert_eq!(QoS::default(), QoS::AtMostOnce);
}

#[test]
fn to_relay_message_fields() {
    let m = Message {
        topic: "sensors/temp".into(),
        payload: b"21.5".to_vec(),
        qos: QoS::AtLeastOnce,
        retained: true,
        ..Default::default()
    };
    let rm = m.to_relay_message();
    assert_eq!(rm.protocol, Protocol::Mqtt);
    assert_eq!(rm.id, "sensors/temp");
    assert_eq!(rm.payload, b"21.5".to_vec());
    assert_eq!(rm.meta.get("mqtt.qos").map(|s| s.as_str()), Some("1"));
    assert_eq!(rm.meta.get("mqtt.retained").map(|s| s.as_str()), Some("true"));
}

#[test]
fn from_relay_message_roundtrip() {
    let original = Message {
        topic: "sensors/temp".into(),
        payload: b"21.5".to_vec(),
        qos: QoS::AtLeastOnce,
        retained: true,
        ..Default::default()
    };
    let rm = original.to_relay_message();
    let restored = Message::from_relay_message(&rm).unwrap();
    assert_eq!(restored.topic, original.topic);
    assert_eq!(restored.payload, original.payload);
    assert_eq!(restored.qos, original.qos);
    assert_eq!(restored.retained, original.retained);
}

#[test]
fn to_message_fields() {
    let m = Message {
        topic: "test/topic".into(),
        payload: b"hello".to_vec(),
        qos: QoS::AtLeastOnce,
        retained: false,
        ..Default::default()
    };
    let rm = to_message(&m);
    assert_eq!(rm.protocol, Protocol::Mqtt);
    assert_eq!(rm.id, "test/topic");
    assert_eq!(rm.meta.get("mqtt.qos").unwrap(), "1");
}

#[test]
fn from_message_roundtrip() {
    let m = Message {
        topic: "sensors/speed".into(),
        payload: b"42.0".to_vec(),
        qos: QoS::ExactlyOnce,
        retained: true,
        ..Default::default()
    };
    let rm = to_message(&m);
    let m2 = from_message(&rm).unwrap();
    assert_eq!(m2.topic, m.topic);
    assert_eq!(m2.payload, m.payload);
    assert_eq!(m2.qos, m.qos);
    assert_eq!(m2.retained, m.retained);
}

#[test]
fn relay_message_meta_canonical() {
    let m = Message {
        topic: "v/s".into(),
        payload: b"42".to_vec(),
        qos: QoS::ExactlyOnce,
        retained: false,
        ..Default::default()
    };
    let rm = to_message(&m);
    assert_eq!(rm.meta.get("mqtt.qos").unwrap(), "2");
    assert_eq!(rm.meta.get("mqtt.retained").unwrap(), "false");
}

#[test]
fn relay_message_protocol_int() {
    let m = Message {
        topic: "t".into(),
        payload: vec![],
        ..Default::default()
    };
    let rm = to_message(&m);
    let as_int: i32 = rm.protocol.into();
    assert_eq!(as_int, 4);
}

#[test]
fn spec_version_is_1_11() {
    assert_eq!(rust_mqtt::SPEC_VERSION, "1.11");
    assert_eq!(rust_mqtt::RELAY_SPEC_VERSION, "1.11");
}

#[test]
fn protocol_int_is_4() {
    assert_eq!(rust_mqtt::PROTOCOL_INT, 4);
}

#[test]
fn back_pressure_policy_values() {
    assert_eq!(BackPressurePolicy::DropNewest as u8, 0);
    assert_eq!(BackPressurePolicy::DropOldest as u8, 1);
    assert_eq!(BackPressurePolicy::Block as u8, 2);
}

#[test]
fn v5_response_topic_roundtrip() {
    let m = Message {
        topic: "req/1".into(),
        response_topic: "resp/1".into(),
        payload: b"ping".to_vec(),
        ..Default::default()
    };
    let rm = to_message(&m);
    assert_eq!(
        rm.meta.get("mqtt.response_topic").map(|s| s.as_str()),
        Some("resp/1")
    );
}

#[test]
fn v5_user_properties_roundtrip() {
    let m = Message {
        topic: "t".into(),
        user_properties: vec![
            UserProperty {
                key: "env".into(),
                value: "prod".into(),
            },
            UserProperty {
                key: "region".into(),
                value: "eu-west".into(),
            },
        ],
        payload: vec![],
        ..Default::default()
    };
    assert_eq!(m.user_properties.len(), 2);
    assert_eq!(m.user_properties[0].key, "env");
    assert_eq!(m.user_properties[1].value, "eu-west");
}

#[test]
fn v5_content_type_roundtrip() {
    let m = Message {
        topic: "t".into(),
        content_type: "application/json".into(),
        payload: b"{}".to_vec(),
        ..Default::default()
    };
    let rm = to_message(&m);
    assert_eq!(
        rm.meta.get("mqtt.content_type").map(|s| s.as_str()),
        Some("application/json")
    );
}

#[test]
fn v5_expiry_interval_roundtrip() {
    let m = Message {
        topic: "t".into(),
        expiry_interval: 300,
        payload: b"val".to_vec(),
        ..Default::default()
    };
    let rm = to_message(&m);
    assert_eq!(
        rm.meta.get("mqtt.expiry_interval").map(|s| s.as_str()),
        Some("300")
    );
}

#[test]
fn unset_v5_fields_leave_no_metadata() {
    let m = Message {
        topic: "t".into(),
        payload: b"x".to_vec(),
        ..Default::default()
    };
    let rm = to_message(&m);
    assert_eq!(rm.meta.len(), 2);
    assert!(!rm.meta.contains_key("mqtt.response_topic"));
    assert!(!rm.meta.contains_key("mqtt.content_type"));
    assert!(!rm.meta.contains_key("mqtt.expiry_interval"));
    assert_eq!(rm.seq, 0);
    assert_eq!(rm.version, Version { major: 0, minor: 0, patch: 0 });
}

#[test]
fn v5_fields_survive_relay_roundtrip() {
    let m = Message {
        topic: "req/test".into(),
        payload: b"data".to_vec(),
        qos: QoS::AtLeastOnce,
        response_topic: "resp/test".into(),
        content_type: "application/json".into(),
        expiry_interval: 60,
        ..Default::default()
    };
    let back = from_message(&to_message(&m)).unwrap();
    assert_eq!(back.response_topic, "resp/test");
    assert_eq!(back.content_type, "application/json");
    assert_eq!(back.expiry_interval, 60);
    assert_eq!(back.qos, QoS::AtLeastOnce);
    assert!(!back.retained);
}

#[test]
fn from_relay_message_reads_metadata_leniently() {
    let mut rm = rust_mqtt::relay::Message::new(Protocol::Mqtt, "a/b", b"p".to_vec());
    rm.meta.insert("mqtt.qos".to_string(), "7".to_string());
    rm.meta.insert("mqtt.retained".to_string(), "yes".to_string());
    rm.meta.insert("mqtt.expiry_interval".to_string(), "+42".to_string());
    let m = from_message(&rm).unwrap();
    assert_eq!(m.topic, "a/b");
    assert_eq!(m.payload, b"p".to_vec());
    assert_eq!(m.qos, QoS::AtMostOnce);
    assert!(!m.retained);
    assert_eq!(m.expiry_interval, 42);
}

fn vector_value() -> Message {
    Message {
        topic: "sensors/temp".into(),
        payload: b"21.5".to_vec(),
        qos: QoS::AtLeastOnce,
        retained: true,
        ..Default::default()
    }
}

#[test]
fn vector_to_relay_message() {
    let v = vector_value();
    let rm = to_message(&v);
    assert_eq!(rm.protocol, Protocol::Mqtt);
    assert_eq!(rm.id, "sensors/temp");
    assert_eq!(rm.payload, b"21.5".to_vec());
    assert_eq!(rm.meta.get("mqtt.qos").map(|s| s.as_str()), Some("1"));
    assert_eq!(rm.meta.get("mqtt.retained").map(|s| s.as_str()), Some("true"));
}

#[test]
fn vector_from_relay_message_roundtrip() {
    let v = vector_value();
    let rm = to_message(&v);
    let restored = from_message(&rm).unwrap();
    assert_eq!(restored.topic, v.topic);
    assert_eq!(restored.payload, v.payload);
    assert_eq!(restored.qos, v.qos);
    assert_eq!(restored.retained, v.retained);
}

#[test]
fn relay_message_at_given_time() {
    let ts = rust_mqtt::relay::Timestamp { secs: -5, nanos: 7 };
    let rm = vector_value().to_relay_message_at(ts);
    assert_eq!(rm.timestamp, ts);
    assert_eq!(rm.id, "sensors/temp");
}
