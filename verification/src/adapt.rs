//! RELAY adapter decisions: message conversion (§15.7.4), the QoS level of
//! an envelope to send, the subscriber configuration of a RELAY subscriber,
//! and the sentinel that a failure is reported as (§5.2).

use vstd::prelude::*;
use vstd::string::StringSliceAdditionalSpecFns;

use crate::client::{BackPressurePolicy, SubscriberConfig};
use crate::error::Error;
use crate::message::{spec_from_relay, spec_qos_from_text, spec_relay_meta, Message, QoS};
use crate::relay;

verus! {

/// The channel depth of a RELAY subscriber whose options leave it at 0.
pub const DEFAULT_CHANNEL_DEPTH: usize = 64;

/// Convert an MQTT `Message` to a `relay::Message` per §15.7.4.
pub fn to_message(m: &Message) -> (r: relay::Message)
    ensures
        r.protocol == relay::Protocol::Mqtt,
        r.version == (relay::Version { major: 0, minor: 0, patch: 0 }),
        r.id@ == m.topic@,
        r.payload@ == m.payload@,
        r.seq == 0,
        r.meta@ == spec_relay_meta(m@),
        r.timestamp.nanos < 1_000_000_000,
        relay::is_clock_reading(r.timestamp),
{
    m.to_relay_message()
}

/// Convert a `relay::Message` to an MQTT `Message` per §15.7.4.
pub fn from_message(msg: &relay::Message) -> (r: Result<Message, Error>)
    ensures
        r matches Ok(m) && m@ == spec_from_relay(msg.id@, msg.payload@, msg.meta@),
{
    Message::from_relay_message(msg)
}

/// The QoS level at which an envelope is published: the one its
/// `mqtt.qos` metadata names, QoS 0 when it has none.
pub fn send_qos(msg: &relay::Message) -> (r: QoS)
    ensures
        r == if msg.meta@.contains_key("mqtt.qos"@) {
            spec_qos_from_text(msg.meta@["mqtt.qos"@])
        } else {
            QoS::AtMostOnce
        },
{
    match msg.meta.get("mqtt.qos") {
        Some(v) => {
            if crate::text::str_eq(v.as_str(), "1") {
                QoS::AtLeastOnce
            } else if crate::text::str_eq(v.as_str(), "2") {
                QoS::ExactlyOnce
            } else {
                QoS::AtMostOnce
            }
        },
        None => QoS::AtMostOnce,
    }
}

/// The RELAY sentinel that a client failure is reported as (§5.2): its own
/// sentinel when it has one, `fallback` otherwise.
pub fn sentinel_or(e: &Error, fallback: relay::Error) -> (r: relay::Error)
    ensures
        r == match e.spec_kind() {
            Some(k) => k,
            None => fallback,
        },
{
    match e.kind() {
        Some(k) => k,
        None => fallback,
    }
}

/// The client subscription that serves a RELAY subscriber: the depth of
/// its options (64 when 0) and the matching back-pressure policy.
pub fn subscriber_config(opts: &relay::SubscriberOptions) -> (r: SubscriberConfig)
    ensures
        r.channel_depth == if opts.chan_depth > 0 {
            opts.chan_depth
        } else {
            DEFAULT_CHANNEL_DEPTH
        },
        opts.back_pressure == relay::BackPressurePolicy::DropNewest ==> r.back_pressure
            == BackPressurePolicy::DropNewest,
        opts.back_pressure == relay::BackPressurePolicy::DropOldest ==> r.back_pressure
            == BackPressurePolicy::DropOldest,
        opts.back_pressure == relay::BackPressurePolicy::Block ==> r.back_pressure
            == BackPressurePolicy::Block,
{
    SubscriberConfig {
        channel_depth: opts.chan_depth(DEFAULT_CHANNEL_DEPTH),
        back_pressure: BackPressurePolicy::from_relay(opts.back_pressure),
    }
}


/// `b` is the ASCII letter `upper`, in either case.
pub open spec fn ascii_letter_is(b: u8, upper: u8) -> bool {
    b == upper || b == upper + 32
}

/// Whether `protocol` names MQTT in any letter case, the one protocol the
/// convert command serves: `MQTT` once upper-cased.
pub fn is_mqtt_protocol(protocol: &str) -> (r: bool)
    ensures
        r == (protocol.spec_bytes().len() == 4 && ascii_letter_is(protocol.spec_bytes()[0], 0x4D)
            && ascii_letter_is(protocol.spec_bytes()[1], 0x51) && ascii_letter_is(
            protocol.spec_bytes()[2],
            0x54,
        ) && ascii_letter_is(protocol.spec_bytes()[3], 0x54)),
{
    let b = protocol.as_bytes();
    b.len() == 4 && (b[0] == 0x4D || b[0] == 0x6D) && (b[1] == 0x51 || b[1] == 0x71) && (b[2]
        == 0x54 || b[2] == 0x74) && (b[3] == 0x54 || b[3] == 0x74)
}

/// The RELAY envelope that the convert command prints for `msg` (§11.2):
/// that of [`to_message`], stamped with the Unix epoch so the output is
/// reproducible; nothing for a message with an empty topic, which is not
/// valid input.
pub fn convert_for_interop(msg: &Message) -> (r: Option<relay::Message>)
    ensures
        r is None <==> msg.topic@.len() == 0,
        r matches Some(rm) ==> rm.protocol == relay::Protocol::Mqtt && rm.version == (
        relay::Version { major: 0, minor: 0, patch: 0 }) && rm.id@ == msg.topic@ && rm.payload@
            == msg.payload@ && rm.seq == 0 && rm.meta@ == spec_relay_meta(msg@) && rm.timestamp
            == relay::Timestamp::epoch_spec(),
{
    if msg.topic.as_str().is_empty() {
        return None;
    }
    Some(msg.to_relay_message_at(relay::Timestamp::epoch()))
}

} // verus!
