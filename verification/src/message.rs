//! MQTT message types: QoS, user properties and the publish message.

use vstd::prelude::*;

use crate::relay;
use crate::text::decimal;

verus! {

/// MQTT Quality of Service delivery guarantee; its wire value is its
/// position: 0, 1 or 2.
#[derive(Clone, Copy, Debug, PartialEq, Eq, PartialOrd, Ord, Hash, Structural)]
pub enum QoS {
    /// Fire-and-forget. No acknowledgement. Messages may be lost.
    AtMostOnce,
    /// Acknowledged delivery. At least once; duplicates possible.
    AtLeastOnce,
    /// Exactly-once delivery. Highest overhead.
    ExactlyOnce,
}

impl QoS {
    /// The wire value of this QoS level.
    pub open spec fn spec_level(self) -> u8 {
        match self {
            QoS::AtMostOnce => 0,
            QoS::AtLeastOnce => 1,
            QoS::ExactlyOnce => 2,
        }
    }

    /// The QoS level with wire value `v`, if `v` is 0, 1 or 2.
    pub open spec fn spec_from_level(v: u8) -> Option<QoS> {
        if v == 0 {
            Some(QoS::AtMostOnce)
        } else if v == 1 {
            Some(QoS::AtLeastOnce)
        } else if v == 2 {
            Some(QoS::ExactlyOnce)
        } else {
            None
        }
    }

    /// The wire value of this QoS level (0, 1 or 2).
    pub fn level(self) -> (r: u8)
        ensures
            r == self.spec_level(),
            r <= 2,
    {
        match self {
            QoS::AtMostOnce => 0,
            QoS::AtLeastOnce => 1,
            QoS::ExactlyOnce => 2,
        }
    }

    /// The QoS level with wire value `v`; `None` for any value above 2.
    pub fn from_level(v: u8) -> (r: Option<QoS>)
        ensures
            r == Self::spec_from_level(v),
    {
        if v == 0 {
            Some(QoS::AtMostOnce)
        } else if v == 1 {
            Some(QoS::AtLeastOnce)
        } else if v == 2 {
            Some(QoS::ExactlyOnce)
        } else {
            None
        }
    }

    /// The wire value as decimal text, as `Display` shows it.
    pub fn to_string(&self) -> (r: String)
        ensures
            r@ == crate::text::decimal(self.spec_level() as nat),
    {
        crate::text::decimal_string(self.level() as u64)
    }
}

/// Every wire value that names a QoS level names the level it came from.
pub proof fn lemma_qos_level_roundtrip(q: QoS, v: u8)
    ensures
        QoS::spec_from_level(q.spec_level()) == Some(q),
        QoS::spec_from_level(v) matches Some(p) ==> p.spec_level() == v,
        QoS::spec_from_level(v) is Some <==> v <= 2,
{
}

impl Default for QoS {
    fn default() -> (r: Self)
        ensures
            r == QoS::AtMostOnce,
    {
        QoS::AtMostOnce
    }
}

impl From<QoS> for u8 {
    fn from(q: QoS) -> u8 {
        q.level()
    }
}

impl vstd::std_specs::convert::FromSpecImpl<QoS> for u8 {
    open spec fn obeys_from_spec() -> bool {
        true
    }

    open spec fn from_spec(q: QoS) -> u8 {
        q.spec_level()
    }
}

/// The text of the error for a wire value that names no QoS level:
/// `invalid QoS: <value>`.
pub open spec fn invalid_qos_text(v: u8) -> Seq<char> {
    seq!['i', 'n', 'v', 'a', 'l', 'i', 'd', ' ', 'Q', 'o', 'S', ':', ' '] + crate::text::decimal(
        v as nat,
    )
}

impl TryFrom<u8> for QoS {
    type Error = String;

    /// Levels 0, 1 and 2 give their QoS; any other value is refused with
    /// the text `invalid QoS: <value>`.
    fn try_from(v: u8) -> (r: Result<QoS, String>)
        ensures
            r matches Ok(q) ==> QoS::spec_from_level(v) == Some(q),
            r matches Err(e) ==> (QoS::spec_from_level(v) is None && e@ == invalid_qos_text(v)),
            r is Ok <==> v <= 2,
    {
        match QoS::from_level(v) {
            Some(q) => Ok(q),
            None => {
                let mut s = crate::text::owned("invalid QoS: ");
                proof {
                    reveal_strlit("invalid QoS: ");
                }
                crate::text::push_decimal(&mut s, v as u64);
                Err(s)
            },
        }
    }
}

impl vstd::std_specs::convert::TryFromSpecImpl<u8> for QoS {
    /// The error is a freshly built `String`, which no spec value can stand
    /// for; what `try_from` returns is stated on the impl itself.
    open spec fn obeys_try_from_spec() -> bool {
        false
    }

    open spec fn try_from_spec(v: u8) -> Result<QoS, String> {
        match QoS::spec_from_level(v) {
            Some(q) => Ok(q),
            None => Err(choose|e: String| e@ == invalid_qos_text(v)),
        }
    }
}

/// MQTT v5 user-defined key/value property pair.
#[derive(Debug, PartialEq, Eq)]
pub struct UserProperty {
    pub key: String,
    pub value: String,
}

impl View for UserProperty {
    type V = (Seq<char>, Seq<char>);

    open spec fn view(&self) -> (Seq<char>, Seq<char>) {
        (self.key@, self.value@)
    }
}

impl Clone for UserProperty {
    fn clone(&self) -> (r: Self)
        ensures
            r@ == self@,
    {
        UserProperty { key: self.key.clone(), value: self.value.clone() }
    }
}

/// The abstract content of a [`Message`].
pub struct MessageView {
    pub topic: Seq<char>,
    pub payload: Seq<u8>,
    pub qos: QoS,
    pub retained: bool,
    pub packet_id: u16,
    pub response_topic: Seq<char>,
    pub correlation_data: Seq<u8>,
    pub user_properties: Seq<(Seq<char>, Seq<char>)>,
    pub content_type: Seq<char>,
    pub expiry_interval: u32,
}

/// A single MQTT publish message.
///
/// The MQTT v5 properties (response topic, correlation data, user
/// properties, content type, expiry interval) are "not set" when empty or
/// zero.
#[derive(Debug, PartialEq, Eq)]
pub struct Message {
    /// MQTT topic the message was published on.
    pub topic: String,
    /// Raw message bytes.
    pub payload: Vec<u8>,
    /// Quality of service level.
    pub qos: QoS,
    /// Broker sent this as a retained message.
    pub retained: bool,
    /// Non-zero for QoS 1 and QoS 2 messages.
    pub packet_id: u16,
    /// Response topic (v5 §3.3.2.3.5).
    pub response_topic: String,
    /// Correlation data (v5 §3.3.2.3.6).
    pub correlation_data: Vec<u8>,
    /// User properties (v5 §3.3.2.3.7).
    pub user_properties: Vec<UserProperty>,
    /// Content type (v5 §3.3.2.3.9).
    pub content_type: String,
    /// Message expiry interval in seconds; 0 = no expiry (v5 §3.3.2.3.3).
    pub expiry_interval: u32,
}

impl View for Message {
    type V = MessageView;

    open spec fn view(&self) -> MessageView {
        MessageView {
            topic: self.topic@,
            payload: self.payload@,
            qos: self.qos,
            retained: self.retained,
            packet_id: self.packet_id,
            response_topic: self.response_topic@,
            correlation_data: self.correlation_data@,
            user_properties: self.user_properties@.map_values(|p: UserProperty| p@),
            content_type: self.content_type@,
            expiry_interval: self.expiry_interval,
        }
    }
}

/// The view of a message that carries only a topic, a payload, a QoS level
/// and a retained flag, every other field being unset.
pub open spec fn plain_message_view(
    topic: Seq<char>,
    payload: Seq<u8>,
    qos: QoS,
    retained: bool,
    packet_id: u16,
) -> MessageView {
    MessageView {
        topic,
        payload,
        qos,
        retained,
        packet_id,
        response_topic: Seq::empty(),
        correlation_data: Seq::empty(),
        user_properties: Seq::empty(),
        content_type: Seq::empty(),
        expiry_interval: 0,
    }
}

/// A copy of `v`, element by element.
pub fn copy_bytes(v: &Vec<u8>) -> (r: Vec<u8>)
    ensures
        r@ == v@,
{
    let mut r: Vec<u8> = Vec::new();
    let mut i: usize = 0;
    while i < v.len()
        invariant
            0 <= i <= v@.len(),
            r@ == v@.subrange(0, i as int),
        decreases v@.len() - i,
    {
        r.push(v[i]);
        assert(v@.subrange(0, i + 1) =~= v@.subrange(0, i as int).push(v@[i as int]));
        i = i + 1;
    }
    assert(v@.subrange(0, v@.len() as int) =~= v@);
    r
}

/// A copy of a list of user properties.
fn copy_properties(v: &Vec<UserProperty>) -> (r: Vec<UserProperty>)
    ensures
        r@.map_values(|p: UserProperty| p@) == v@.map_values(|p: UserProperty| p@),
{
    let mut r: Vec<UserProperty> = Vec::new();
    let mut i: usize = 0;
    while i < v.len()
        invariant
            0 <= i <= v@.len(),
            r@.len() == i,
            forall|j: int| 0 <= j < i ==> (#[trigger] r@[j])@ == v@[j]@,
        decreases v@.len() - i,
    {
        r.push(v[i].clone());
        i = i + 1;
    }
    assert(r@.map_values(|p: UserProperty| p@) =~= v@.map_values(|p: UserProperty| p@));
    r
}

impl Clone for Message {
    fn clone(&self) -> (r: Self)
        ensures
            r@ == self@,
    {
        Message {
            topic: self.topic.clone(),
            payload: copy_bytes(&self.payload),
            qos: self.qos,
            retained: self.retained,
            packet_id: self.packet_id,
            response_topic: self.response_topic.clone(),
            correlation_data: copy_bytes(&self.correlation_data),
            user_properties: copy_properties(&self.user_properties),
            content_type: self.content_type.clone(),
            expiry_interval: self.expiry_interval,
        }
    }
}

impl Default for Message {
    fn default() -> (r: Self)
        ensures
            r@ == plain_message_view(Seq::empty(), Seq::empty(), QoS::AtMostOnce, false, 0),
    {
        let r = Message {
            topic: String::new(),
            payload: Vec::new(),
            qos: QoS::AtMostOnce,
            retained: false,
            packet_id: 0,
            response_topic: String::new(),
            correlation_data: Vec::new(),
            user_properties: Vec::new(),
            content_type: String::new(),
            expiry_interval: 0,
        };
        assert(r.user_properties@.map_values(|p: UserProperty| p@) =~= Seq::empty());
        r
    }
}

impl Message {
    /// A message with the given topic, payload, QoS level and retained flag
    /// and packet id, every v5 property unset.
    pub fn plain(topic: String, payload: Vec<u8>, qos: QoS, retained: bool, packet_id: u16) -> (r:
        Message)
        ensures
            r@ == plain_message_view(topic@, payload@, qos, retained, packet_id),
    {
        let r = Message {
            topic,
            payload,
            qos,
            retained,
            packet_id,
            response_topic: String::new(),
            correlation_data: Vec::new(),
            user_properties: Vec::new(),
            content_type: String::new(),
            expiry_interval: 0,
        };
        assert(r.user_properties@.map_values(|p: UserProperty| p@) =~= Seq::empty());
        r
    }
}

/// `true` or `false`.
pub open spec fn bool_text(b: bool) -> Seq<char> {
    if b {
        "true"@
    } else {
        "false"@
    }
}

/// The RELAY metadata of a message (§15.7.4): `mqtt.qos` and
/// `mqtt.retained` always, `mqtt.response_topic`, `mqtt.content_type` and
/// `mqtt.expiry_interval` when set.
pub open spec fn spec_relay_meta(m: MessageView) -> Map<Seq<char>, Seq<char>> {
    let base = Map::<Seq<char>, Seq<char>>::empty().insert(
        "mqtt.qos"@,
        decimal(m.qos.spec_level() as nat),
    ).insert("mqtt.retained"@, bool_text(m.retained));
    let a = if m.response_topic.len() > 0 {
        base.insert("mqtt.response_topic"@, m.response_topic)
    } else {
        base
    };
    let b = if m.content_type.len() > 0 {
        a.insert("mqtt.content_type"@, m.content_type)
    } else {
        a
    };
    if m.expiry_interval > 0 {
        b.insert("mqtt.expiry_interval"@, decimal(m.expiry_interval as nat))
    } else {
        b
    }
}

/// The value of `key` in `meta`, or the empty string.
pub open spec fn meta_or_empty(meta: Map<Seq<char>, Seq<char>>, key: Seq<char>) -> Seq<char> {
    if meta.contains_key(key) {
        meta[key]
    } else {
        Seq::empty()
    }
}

/// The QoS level that the metadata value `v` of `mqtt.qos` names: `1` and
/// `2` name theirs, anything else QoS 0.
pub open spec fn spec_qos_from_text(v: Seq<char>) -> QoS {
    if v == "1"@ {
        QoS::AtLeastOnce
    } else if v == "2"@ {
        QoS::ExactlyOnce
    } else {
        QoS::AtMostOnce
    }
}

/// The MQTT message that a RELAY envelope with this id, payload and
/// metadata stands for (§15.7.4): topic from the id; QoS from `mqtt.qos`
/// (0 when absent); retained when `mqtt.retained` is `true`; response topic
/// and content type from their keys; expiry interval from
/// `mqtt.expiry_interval` when it parses as a `u32`, else 0.
pub open spec fn spec_from_relay(
    id: Seq<char>,
    payload: Seq<u8>,
    meta: Map<Seq<char>, Seq<char>>,
) -> MessageView {
    MessageView {
        topic: id,
        payload,
        qos: if meta.contains_key("mqtt.qos"@) {
            spec_qos_from_text(meta["mqtt.qos"@])
        } else {
            QoS::AtMostOnce
        },
        retained: meta.contains_key("mqtt.retained"@) && meta["mqtt.retained"@] == "true"@,
        packet_id: 0,
        response_topic: meta_or_empty(meta, "mqtt.response_topic"@),
        correlation_data: Seq::empty(),
        user_properties: Seq::empty(),
        content_type: meta_or_empty(meta, "mqtt.content_type"@),
        expiry_interval: if meta.contains_key("mqtt.expiry_interval"@) {
            match crate::text::spec_parse_u32(
                vstd::utf8::encode_utf8(meta["mqtt.expiry_interval"@]),
            ) {
                Some(n) => n,
                None => 0,
            }
        } else {
            0
        },
    }
}

impl Message {
    /// Convert this MQTT message to a RELAY envelope per §15.7.4: protocol
    /// MQTT, version 0.0.0, the topic as id, the payload, sequence 0, the
    /// metadata of [`spec_relay_meta`], stamped with the current time.
    pub fn to_relay_message(&self) -> (r: relay::Message)
        ensures
            r.protocol == relay::Protocol::Mqtt,
            r.version == (relay::Version { major: 0, minor: 0, patch: 0 }),
            r.id@ == self.topic@,
            r.payload@ == self.payload@,
            r.seq == 0,
            r.meta@ == spec_relay_meta(self@),
            r.timestamp.nanos < 1_000_000_000,
            relay::is_clock_reading(r.timestamp),
    {
        self.to_relay_message_at(relay::Timestamp::now())
    }

    /// The RELAY envelope of this message (see [`Message::to_relay_message`])
    /// stamped with `timestamp`.
    pub fn to_relay_message_at(&self, timestamp: relay::Timestamp) -> (r: relay::Message)
        ensures
            r.protocol == relay::Protocol::Mqtt,
            r.version == (relay::Version { major: 0, minor: 0, patch: 0 }),
            r.id@ == self.topic@,
            r.payload@ == self.payload@,
            r.seq == 0,
            r.meta@ == spec_relay_meta(self@),
            r.timestamp == timestamp,
    {
        let mut meta = relay::MetaMap::new();
        meta.insert(
            crate::text::owned("mqtt.qos"),
            crate::text::decimal_string(self.qos.level() as u64),
        );
        let retained = if self.retained {
            crate::text::owned("true")
        } else {
            crate::text::owned("false")
        };
        meta.insert(crate::text::owned("mqtt.retained"), retained);
        if !self.response_topic.as_str().is_empty() {
            meta.insert(crate::text::owned("mqtt.response_topic"), self.response_topic.clone());
        }
        if !self.content_type.as_str().is_empty() {
            meta.insert(crate::text::owned("mqtt.content_type"), self.content_type.clone());
        }
        if self.expiry_interval > 0 {
            meta.insert(
                crate::text::owned("mqtt.expiry_interval"),
                crate::text::decimal_string(self.expiry_interval as u64),
            );
        }
        assert(meta@ =~= spec_relay_meta(self@));
        relay::Message {
            protocol: relay::Protocol::Mqtt,
            version: relay::Version::default(),
            id: self.topic.clone(),
            payload: copy_bytes(&self.payload),
            timestamp,
            seq: 0,
            meta,
        }
    }

    /// Convert a RELAY envelope to an MQTT message per §15.7.4 (see
    /// [`spec_from_relay`]). Never fails.
    pub fn from_relay_message(msg: &relay::Message) -> (r: Result<Self, crate::error::Error>)
        ensures
            r matches Ok(m) && m@ == spec_from_relay(msg.id@, msg.payload@, msg.meta@),
    {
        let mut m = Message::default();
        m.topic = msg.id.clone();
        m.payload = copy_bytes(&msg.payload);
        match msg.meta.get("mqtt.qos") {
            Some(q) => {
                m.qos = if crate::text::str_eq(q.as_str(), "1") {
                    QoS::AtLeastOnce
                } else if crate::text::str_eq(q.as_str(), "2") {
                    QoS::ExactlyOnce
                } else {
                    QoS::AtMostOnce
                };
            },
            None => {},
        }
        match msg.meta.get("mqtt.retained") {
            Some(v) => {
                if crate::text::str_eq(v.as_str(), "true") {
                    m.retained = true;
                }
            },
            None => {},
        }
        match msg.meta.get("mqtt.response_topic") {
            Some(v) => {
                m.response_topic = v.clone();
            },
            None => {},
        }
        match msg.meta.get("mqtt.content_type") {
            Some(v) => {
                m.content_type = v.clone();
            },
            None => {},
        }
        match msg.meta.get("mqtt.expiry_interval") {
            Some(v) => {
                m.expiry_interval = match crate::text::parse_u32(v.as_str()) {
                    Some(n) => n,
                    None => 0,
                };
            },
            None => {},
        }
        assert(m.user_properties@.map_values(|p: UserProperty| p@) =~= Seq::empty());
        Ok(m)
    }
}

} // verus!

verus! {

/// What survives a trip through a RELAY envelope: everything but the packet
/// identifier, the correlation data and the user properties, which the
/// envelope does not carry.
pub open spec fn relay_carried(m: MessageView) -> MessageView {
    MessageView { packet_id: 0, correlation_data: Seq::empty(), user_properties: Seq::empty(), ..m }
}

/// RELAY round trip (§15.7.4): converting a message to an envelope and
/// back restores its topic, payload, QoS level, retained flag, response
/// topic, content type and expiry interval.
pub proof fn lemma_relay_roundtrip(m: MessageView)
    ensures
        spec_from_relay(m.topic, m.payload, spec_relay_meta(m)) == relay_carried(m),
{
    reveal_strlit("mqtt.qos");
    reveal_strlit("mqtt.retained");
    reveal_strlit("mqtt.response_topic");
    reveal_strlit("mqtt.content_type");
    reveal_strlit("mqtt.expiry_interval");
    reveal_strlit("true");
    reveal_strlit("false");
    reveal_strlit("1");
    reveal_strlit("2");
    let meta = spec_relay_meta(m);
    assert("mqtt.qos"@.len() == 8);
    assert("mqtt.retained"@.len() == 13);
    assert("mqtt.response_topic"@.len() == 19);
    assert("mqtt.content_type"@.len() == 17);
    assert("mqtt.expiry_interval"@.len() == 20);
    assert("mqtt.qos"@ != "mqtt.retained"@);
    assert("mqtt.qos"@ != "mqtt.response_topic"@);
    assert("mqtt.qos"@ != "mqtt.content_type"@);
    assert("mqtt.qos"@ != "mqtt.expiry_interval"@);
    assert("mqtt.retained"@ != "mqtt.response_topic"@);
    assert("mqtt.retained"@ != "mqtt.content_type"@);
    assert("mqtt.retained"@ != "mqtt.expiry_interval"@);
    assert("mqtt.response_topic"@ != "mqtt.content_type"@);
    assert("mqtt.response_topic"@ != "mqtt.expiry_interval"@);
    assert("mqtt.content_type"@ != "mqtt.expiry_interval"@);
    assert(meta["mqtt.qos"@] == decimal(m.qos.spec_level() as nat));
    assert(decimal(0) == seq!['0']);
    assert(decimal(1) == seq!['1']);
    assert(decimal(2) == seq!['2']);
    assert("1"@ =~= seq!['1']);
    assert("2"@ =~= seq!['2']);
    match m.qos {
        QoS::AtMostOnce => {
            assert(decimal(0)[0] != "1"@[0]);
            assert(decimal(0)[0] != "2"@[0]);
        },
        QoS::AtLeastOnce => {
            assert(decimal(1) =~= "1"@);
        },
        QoS::ExactlyOnce => {
            assert(decimal(2)[0] != "1"@[0]);
            assert(decimal(2) =~= "2"@);
        },
    }
    assert(spec_qos_from_text(meta["mqtt.qos"@]) == m.qos);
    assert(meta["mqtt.retained"@] == bool_text(m.retained));
    assert("false"@.len() != "true"@.len());
    assert((meta["mqtt.retained"@] == "true"@) == m.retained);
    if m.expiry_interval > 0 {
        crate::text::lemma_parse_decimal_roundtrip(m.expiry_interval);
    }
    let r = spec_from_relay(m.topic, m.payload, meta);
    if m.response_topic.len() == 0 {
        assert(m.response_topic =~= Seq::<char>::empty());
    }
    assert(r.response_topic == m.response_topic);
    if m.content_type.len() == 0 {
        assert(m.content_type =~= Seq::<char>::empty());
    }
    assert(r.content_type == m.content_type);
    assert(r.expiry_interval == m.expiry_interval);
    assert(r.qos == m.qos);
    assert(r.retained == m.retained);
    assert(r == relay_carried(m));
}

} // verus!
