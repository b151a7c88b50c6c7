use rust_mqtt::relay::Error as RelayError;
use rust_mqtt::Error;

#[test]
fn relay_error_conversion() {
    let e: Error = rust_mqtt::relay::Error::Closed.into();
    assert!(matches!(e, Error::Closed));
    assert_eq!(e.kind(), Some(rust_mqtt::relay::Error::Closed));
}

#[test]
fn topic_empty_kind_is_none() {
    let e = Error::TopicEmpty;
    assert!(e.kind().is_none());
}

#[test]
fn error_display() {
    assert_eq!(Error::Closed.to_string(), "mqtt: closed");
    assert_eq!(Error::NotConnected.to_string(), "mqtt: not connected");
    assert_eq!(Error::TopicEmpty.to_string(), "mqtt: topic must not be empty");
    assert_eq!(Error::PayloadTooLarge.to_string(), "mqtt: payload too large");
}

#[test]
fn is_closed() {
    assert!(Error::Closed.is_closed());
    assert!(!Error::TopicEmpty.is_closed());
}

#[test]
fn error_sentinel_kind_mapping() {
    let errs: Vec<(Error, RelayError)> = vec![
        (Error::Closed, RelayError::Closed),
        (Error::NotConnected, RelayError::NotConnected),
        (Error::Timeout, RelayError::Timeout),
        (Error::PayloadTooLarge, RelayError::PayloadTooLarge),
    ];
    for (e, expected) in errs {
        assert_eq!(e.kind(), Some(expected));
    }
}

#[test]
fn error_relay_conversion() {
    let e: Error = RelayError::Closed.into();
    assert!(matches!(e, Error::Closed));
}

#[test]
fn error_send_sync() {
    fn is_send_sync<T: Send + Sync>() {}
    is_send_sync::<Error>();
}

#[test]
fn conn_connack_codes_checked() {
    for code in [0x01u8, 0x02, 0x03, 0x04, 0x05] {
        let e = Error::ConnectionRefused(code);
        assert!(matches!(e, Error::ConnectionRefused(_)));
    }
}

#[test]
fn every_sentinel_survives_conversion_and_kind() {
    for r in [
        RelayError::Closed,
        RelayError::NotConnected,
        RelayError::Timeout,
        RelayError::PayloadTooLarge,
    ] {
        let e: Error = r.into();
        assert_eq!(e.kind(), Some(r));
    }
}

#[test]
fn non_sentinel_errors_have_no_kind() {
    assert!(Error::QoSUnsupported.kind().is_none());
    assert!(Error::Protocol("x".to_string()).kind().is_none());
    assert!(Error::ConnectionRefused(5).kind().is_none());
    assert!(Error::Io(std::io::Error::other("boom")).kind().is_none());
}

#[test]
fn error_display_other_variants() {
    assert_eq!(Error::Timeout.to_string(), "mqtt: timeout");
    assert_eq!(Error::QoSUnsupported.to_string(), "mqtt: QoS level not supported");
    assert_eq!(
        Error::Protocol("bad frame".to_string()).to_string(),
        "mqtt: protocol error: bad frame"
    );
    assert_eq!(
        Error::ConnectionRefused(5).to_string(),
        "mqtt: connection refused: code=5"
    );
    assert_eq!(
        Error::ConnectionRefused(135).to_string(),
        "mqtt: connection refused: code=135"
    );
}

#[test]
fn relay_error_display() {
    assert_eq!(RelayError::Closed.to_string(), "relay: closed");
    assert_eq!(RelayError::NotConnected.to_string(), "relay: not connected");
    assert_eq!(RelayError::Timeout.to_string(), "relay: timeout");
    assert_eq!(RelayError::PayloadTooLarge.to_string(), "relay: payload too large");
}
