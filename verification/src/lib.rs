//! rust-MQTT: an MQTT client library. Its wire format, topic matching,
//! RELAY conversion, back-pressure queues and the decisions of its
//! in-process and embedded brokers are verified.

pub mod adapt;
pub mod broker;
pub mod backpressure;
pub mod client;
pub mod error;
pub mod message;
pub mod mock;
pub mod relay;
pub mod text;
pub mod topic;
pub mod v3;

pub use adapt::{from_message, to_message};
pub use client::{BackPressurePolicy, Health, HealthStatus, MetricsSnapshot, SubscriberConfig};
pub use error::Error;
pub use message::{Message, QoS, UserProperty};
pub use topic::match_topic;

use vstd::prelude::*;

verus! {

/// The RELAY specification version this library targets.
pub const SPEC_VERSION: &'static str = "1.11";

/// Alias for `SPEC_VERSION` for explicitness in CLI contexts.
pub const RELAY_SPEC_VERSION: &'static str = "1.11";

/// Protocol integer for MQTT per RELAY spec §3.
pub const PROTOCOL_INT: i32 = 4;

} // verus!
