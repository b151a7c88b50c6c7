//! Subscription options and the health and metrics reports of a client.

use vstd::prelude::*;

verus! {

/// Controls what happens when a subscription channel is full; the wire
/// value of each is its position: 0, 1, 2.
#[derive(Clone, Copy, Debug, PartialEq, Eq, Structural)]
pub enum BackPressurePolicy {
    /// Drop the arriving message (default).
    DropNewest,
    /// Drop the oldest buffered message to make room.
    DropOldest,
    /// Block until space is available.
    Block,
}

impl Default for BackPressurePolicy {
    fn default() -> (r: Self)
        ensures
            r == BackPressurePolicy::DropNewest,
    {
        BackPressurePolicy::DropNewest
    }
}

impl BackPressurePolicy {
    /// The client policy that a RELAY policy asks for.
    pub fn from_relay(p: crate::relay::BackPressurePolicy) -> (r: Self)
        ensures
            p == crate::relay::BackPressurePolicy::DropNewest ==> r == BackPressurePolicy::DropNewest,
            p == crate::relay::BackPressurePolicy::DropOldest ==> r == BackPressurePolicy::DropOldest,
            p == crate::relay::BackPressurePolicy::Block ==> r == BackPressurePolicy::Block,
    {
        match p {
            crate::relay::BackPressurePolicy::DropOldest => BackPressurePolicy::DropOldest,
            crate::relay::BackPressurePolicy::Block => BackPressurePolicy::Block,
            crate::relay::BackPressurePolicy::DropNewest => BackPressurePolicy::DropNewest,
        }
    }
}

/// Per-subscription options applied at creation time.
#[derive(Clone, Copy, Debug, PartialEq, Eq, Structural)]
pub struct SubscriberConfig {
    /// Capacity of the internal channel. 0 means implementation default (64).
    pub channel_depth: usize,
    /// What to do when the channel is full.
    pub back_pressure: BackPressurePolicy,
}

impl Default for SubscriberConfig {
    fn default() -> (r: Self)
        ensures
            r == (SubscriberConfig {
                channel_depth: 0,
                back_pressure: BackPressurePolicy::DropNewest,
            }),
    {
        SubscriberConfig { channel_depth: 0, back_pressure: BackPressurePolicy::DropNewest }
    }
}

impl SubscriberConfig {
    /// Return the resolved channel depth: the configured one, or `default`
    /// when it is 0.
    pub fn chan_depth(&self, default: usize) -> (r: usize)
        ensures
            r == if self.channel_depth > 0 {
                self.channel_depth
            } else {
                default
            },
    {
        if self.channel_depth > 0 {
            self.channel_depth
        } else {
            default
        }
    }
}

/// Health status per RELAY spec §9 `HealthStatus`.
#[derive(Clone, Copy, Debug, PartialEq, Eq, Structural)]
pub enum HealthStatus {
    Healthy,
    Degraded,
    Down,
}

impl Default for HealthStatus {
    fn default() -> (r: Self)
        ensures
            r == HealthStatus::Down,
    {
        HealthStatus::Down
    }
}

/// Health report, per RELAY spec §9 canonical `Health`: `status` and
/// `details`, with `connected` and `endpoint` beside them.
#[derive(Clone, Debug)]
pub struct Health {
    pub status: HealthStatus,
    pub details: String,
    pub connected: bool,
    pub endpoint: String,
}

impl Health {
    /// The report of a client that is open (`Healthy`, connected) or closed
    /// (`Down`, not connected), with no details.
    pub fn of_open_state(open: bool, endpoint: String) -> (r: Health)
        ensures
            r.status == (if open {
                HealthStatus::Healthy
            } else {
                HealthStatus::Down
            }),
            r.connected == open,
            r.endpoint == endpoint,
            r.details@ == Seq::<char>::empty(),
    {
        Health {
            status: if open {
                HealthStatus::Healthy
            } else {
                HealthStatus::Down
            },
            details: String::new(),
            connected: open,
            endpoint,
        }
    }
}

impl Default for Health {
    fn default() -> (r: Self)
        ensures
            r.status == HealthStatus::Down,
            r.details@ == Seq::<char>::empty(),
            !r.connected,
            r.endpoint@ == Seq::<char>::empty(),
    {
        Health {
            status: HealthStatus::Down,
            details: String::new(),
            connected: false,
            endpoint: String::new(),
        }
    }
}

/// Point-in-time metrics snapshot, with the RELAY spec §9.1 `Metrics`
/// fields.
#[derive(Clone, Copy, Debug, PartialEq, Eq, Structural)]
pub struct MetricsSnapshot {
    /// One per accepted `publish()` call that returns without error.
    pub write_count: u64,
    /// One per successful enqueue onto a subscriber delivery channel,
    /// counted once per receiving subscriber.
    pub deliver_count: u64,
    /// One per sample discarded by back-pressure when a subscriber channel
    /// is full, counted once per affected subscriber.
    pub drop_count: u64,
    /// Sum of `payload.len()` over the sends counted by `write_count`.
    pub bytes_written: u64,
    /// Sum of `payload.len()` over the deliveries counted by `deliver_count`.
    pub bytes_delivered: u64,
    /// One per node operation that returns an error.
    pub error_count: u64,
}

impl Default for MetricsSnapshot {
    fn default() -> (r: Self)
        ensures
            r == (MetricsSnapshot {
                write_count: 0,
                deliver_count: 0,
                drop_count: 0,
                bytes_written: 0,
                bytes_delivered: 0,
                error_count: 0,
            }),
    {
        MetricsSnapshot {
            write_count: 0,
            deliver_count: 0,
            drop_count: 0,
            bytes_written: 0,
            bytes_delivered: 0,
            error_count: 0,
        }
    }
}

} // verus!
