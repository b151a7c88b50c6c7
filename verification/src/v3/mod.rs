//! MQTT v3.1.1: the wire codec, the packet builders, and the connection
//! options and decisions of the TCP client.

pub mod codec;
pub mod packet;
pub mod session;

use std::time::Duration;
use vstd::prelude::*;

use crate::message::QoS;

verus! {

/// `std::time::Duration::from_secs`: a span of `secs` whole seconds.
pub uninterp spec fn spec_duration_from_secs(secs: u64) -> Duration;

/// A `Duration` of `secs` whole seconds, through `Duration::from_secs`,
/// which is a function of `secs` alone.
#[verifier::external_body]
pub(crate) fn duration_from_secs(secs: u64) -> (d: Duration)
    ensures
        d == spec_duration_from_secs(secs),
{
    Duration::from_secs(secs)
}

/// Last-will-and-testament message.
#[derive(Debug)]
pub struct WillMessage {
    pub topic: String,
    pub payload: Vec<u8>,
    pub qos: QoS,
    pub retain: bool,
}

/// Options for establishing a v3.1.1 connection.
#[derive(Debug)]
pub struct ConnectOptions {
    pub address: String,
    pub client_id: String,
    pub username: Option<String>,
    pub password: Option<Vec<u8>>,
    pub clean_session: bool,
    pub keepalive_secs: u16,
    pub connect_timeout: Duration,
    pub will: Option<WillMessage>,
}

/// `rust-mqtt-`, the start of the default client identifier.
pub open spec fn default_client_id_prefix() -> Seq<char> {
    seq!['r', 'u', 's', 't', '-', 'm', 'q', 't', 't', '-']
}

impl ConnectOptions {
    /// Options for the broker at `address`: client id `rust-mqtt-<pid>`
    /// where `process_id` is the id of the running process, clean session,
    /// keepalive 60 s, connect timeout 10 s, no credentials and no will.
    pub fn new(address: &str, process_id: u32) -> (r: Self)
        ensures
            r.address@ == address@,
            r.client_id@ == default_client_id_prefix() + crate::text::decimal(process_id as nat),
            r.username.is_none(),
            r.password.is_none(),
            r.clean_session,
            r.keepalive_secs == 60,
            r.connect_timeout == spec_duration_from_secs(10),
            r.will.is_none(),
    {
        let mut client_id = crate::text::owned("rust-mqtt-");
        proof {
            reveal_strlit("rust-mqtt-");
        }
        crate::text::push_decimal(&mut client_id, process_id as u64);
        ConnectOptions {
            address: crate::text::owned(address),
            client_id,
            username: None,
            password: None,
            clean_session: true,
            keepalive_secs: 60,
            connect_timeout: duration_from_secs(10),
            will: None,
        }
    }

    /// Set the client identifier.
    pub fn client_id(self, id: &str) -> (r: Self)
        ensures
            r.client_id@ == id@,
            r == (ConnectOptions { client_id: r.client_id, ..self }),
    {
        ConnectOptions { client_id: crate::text::owned(id), ..self }
    }

    /// Set the user name.
    pub fn username(self, u: &str) -> (r: Self)
        ensures
            r.username matches Some(n) && n@ == u@,
            r == (ConnectOptions { username: r.username, ..self }),
    {
        ConnectOptions { username: Some(crate::text::owned(u)), ..self }
    }

    /// Set the password.
    pub fn password(self, p: Vec<u8>) -> (r: Self)
        ensures
            r == (ConnectOptions { password: Some(p), ..self }),
    {
        ConnectOptions { password: Some(p), ..self }
    }

    /// Set whether the session is clean.
    pub fn clean_session(self, v: bool) -> (r: Self)
        ensures
            r == (ConnectOptions { clean_session: v, ..self }),
    {
        ConnectOptions { clean_session: v, ..self }
    }

    /// Set the keepalive interval in seconds.
    pub fn keepalive(self, secs: u16) -> (r: Self)
        ensures
            r == (ConnectOptions { keepalive_secs: secs, ..self }),
    {
        ConnectOptions { keepalive_secs: secs, ..self }
    }

    /// Set the timeout of the TCP connect.
    pub fn connect_timeout(self, d: Duration) -> (r: Self)
        ensures
            r == (ConnectOptions { connect_timeout: d, ..self }),
    {
        ConnectOptions { connect_timeout: d, ..self }
    }

    /// Set the last will.
    pub fn will(self, w: WillMessage) -> (r: Self)
        ensures
            r == (ConnectOptions { will: Some(w), ..self }),
    {
        ConnectOptions { will: Some(w), ..self }
    }
}

} // verus!
