//! Unified error type for rust-MQTT.
//!
//! Wraps the four mandatory RELAY sentinels (§5.1) and MQTT-specific errors.

use vstd::prelude::*;

use crate::relay;

verus! {

/// An operating-system or I/O error, `std::io::Error`.
#[verifier::external_type_specification]
#[verifier::external_body]
pub struct ExIoError(std::io::Error);

/// The unified error type for all rust-MQTT operations.
#[derive(Debug)]
pub enum Error {
    /// Operation on a closed client or subscription.
    Closed,
    /// Client is not connected to a broker.
    NotConnected,
    /// Operation timed out.
    Timeout,
    /// Payload exceeds the broker limit (§3.1.3.5).
    PayloadTooLarge,
    /// Topic string is empty.
    TopicEmpty,
    /// QoS level is not supported by this client.
    QoSUnsupported,
    /// MQTT protocol-level error (CONNECT refused, SUBACK error, etc.).
    Protocol(String),
    /// Broker returned a non-zero CONNACK return code.
    ConnectionRefused(u8),
    /// Underlying I/O error.
    Io(std::io::Error),
}

impl Error {
    /// The RELAY sentinel that this error maps to, if any.
    pub open spec fn spec_kind(&self) -> Option<relay::Error> {
        match self {
            Error::Closed => Some(relay::Error::Closed),
            Error::NotConnected => Some(relay::Error::NotConnected),
            Error::Timeout => Some(relay::Error::Timeout),
            Error::PayloadTooLarge => Some(relay::Error::PayloadTooLarge),
            _ => None,
        }
    }

    /// Return the RELAY sentinel this error maps to, if any: the four
    /// sentinels map to themselves, every other error to `None`.
    pub fn kind(&self) -> (r: Option<relay::Error>)
        ensures
            r == self.spec_kind(),
    {
        match self {
            Error::Closed => Some(relay::Error::Closed),
            Error::NotConnected => Some(relay::Error::NotConnected),
            Error::Timeout => Some(relay::Error::Timeout),
            Error::PayloadTooLarge => Some(relay::Error::PayloadTooLarge),
            _ => None,
        }
    }

    /// Convenience: is this a Closed error?
    pub fn is_closed(&self) -> (r: bool)
        ensures
            r == (self is Closed),
    {
        match self {
            Error::Closed => true,
            _ => false,
        }
    }

    /// The error from a RELAY sentinel.
    pub open spec fn spec_from_relay(e: relay::Error) -> Error {
        match e {
            relay::Error::Closed => Error::Closed,
            relay::Error::NotConnected => Error::NotConnected,
            relay::Error::Timeout => Error::Timeout,
            relay::Error::PayloadTooLarge => Error::PayloadTooLarge,
        }
    }

    /// The message text, as `Display` shows it.
    pub fn to_string(&self) -> (r: String)
        ensures
            self is Closed ==> r@ == "mqtt: closed"@,
            self is NotConnected ==> r@ == "mqtt: not connected"@,
            self is Timeout ==> r@ == "mqtt: timeout"@,
            self is PayloadTooLarge ==> r@ == "mqtt: payload too large"@,
            self is TopicEmpty ==> r@ == "mqtt: topic must not be empty"@,
            self is QoSUnsupported ==> r@ == "mqtt: QoS level not supported"@,
            self matches Error::Protocol(s) ==> r@ == "mqtt: protocol error: "@ + s@,
            self matches Error::ConnectionRefused(c) ==> r@ == "mqtt: connection refused: code="@
                + crate::text::decimal(c as nat),
    {
        match self {
            Error::Closed => crate::text::owned("mqtt: closed"),
            Error::NotConnected => crate::text::owned("mqtt: not connected"),
            Error::Timeout => crate::text::owned("mqtt: timeout"),
            Error::PayloadTooLarge => crate::text::owned("mqtt: payload too large"),
            Error::TopicEmpty => crate::text::owned("mqtt: topic must not be empty"),
            Error::QoSUnsupported => crate::text::owned("mqtt: QoS level not supported"),
            Error::Protocol(s) => {
                let mut r = crate::text::owned("mqtt: protocol error: ");
                crate::text::push_str(&mut r, s.as_str());
                r
            },
            Error::ConnectionRefused(c) => {
                let mut r = crate::text::owned("mqtt: connection refused: code=");
                crate::text::push_decimal(&mut r, *c as u64);
                r
            },
            Error::Io(e) => e.to_string(),
        }
    }
}

/// Every RELAY sentinel survives the trip into [`Error`] and back through
/// [`Error::kind`].
pub proof fn lemma_relay_sentinel_roundtrip(e: relay::Error)
    ensures
        Error::spec_from_relay(e).spec_kind() == Some(e),
{
}

impl From<relay::Error> for Error {
    fn from(e: relay::Error) -> Error {
        match e {
            relay::Error::Closed => Error::Closed,
            relay::Error::NotConnected => Error::NotConnected,
            relay::Error::Timeout => Error::Timeout,
            relay::Error::PayloadTooLarge => Error::PayloadTooLarge,
        }
    }
}

impl vstd::std_specs::convert::FromSpecImpl<relay::Error> for Error {
    open spec fn obeys_from_spec() -> bool {
        true
    }

    open spec fn from_spec(e: relay::Error) -> Error {
        Error::spec_from_relay(e)
    }
}

} // verus!
