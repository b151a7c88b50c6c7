//! MQTT v3.1.1 packet serialisation.

use vstd::prelude::*;
use vstd::string::StringSliceAdditionalSpecFns;
use vstd::utf8::encode_utf8;

use super::codec::{
    encode_bytes, encode_string, packet_with_header, spec_length_prefixed, spec_packet, spec_varint,
    MAX_FIELD_LENGTH, MAX_REMAINING_LENGTH,
};
use super::{ConnectOptions, WillMessage};
use crate::message::QoS;

verus! {

/// The control packet types of MQTT v3.1.1 (§2.2.1), by the four high bits
/// of the first header byte; `Unknown` for 0 and 15.
#[derive(Debug, Clone, Copy, PartialEq, Eq, Structural)]
pub enum PacketType {
    Connect,
    Connack,
    Publish,
    Puback,
    Pubrec,
    Pubrel,
    Pubcomp,
    Subscribe,
    Suback,
    Unsubscribe,
    Unsuback,
    Pingreq,
    Pingresp,
    Disconnect,
    Unknown,
}

impl PacketType {
    /// The packet type that the type code `b` names (§2.2.1).
    pub open spec fn spec_from_byte(b: u8) -> PacketType {
        if b == 1 {
            PacketType::Connect
        } else if b == 2 {
            PacketType::Connack
        } else if b == 3 {
            PacketType::Publish
        } else if b == 4 {
            PacketType::Puback
        } else if b == 5 {
            PacketType::Pubrec
        } else if b == 6 {
            PacketType::Pubrel
        } else if b == 7 {
            PacketType::Pubcomp
        } else if b == 8 {
            PacketType::Subscribe
        } else if b == 9 {
            PacketType::Suback
        } else if b == 10 {
            PacketType::Unsubscribe
        } else if b == 11 {
            PacketType::Unsuback
        } else if b == 12 {
            PacketType::Pingreq
        } else if b == 13 {
            PacketType::Pingresp
        } else if b == 14 {
            PacketType::Disconnect
        } else {
            PacketType::Unknown
        }
    }

    /// The packet type named by the type code `b` (the high four bits of the
    /// first header byte).
    pub fn from_byte(b: u8) -> (r: Self)
        ensures
            r == Self::spec_from_byte(b),
    {
        match b {
            1 => PacketType::Connect,
            2 => PacketType::Connack,
            3 => PacketType::Publish,
            4 => PacketType::Puback,
            5 => PacketType::Pubrec,
            6 => PacketType::Pubrel,
            7 => PacketType::Pubcomp,
            8 => PacketType::Subscribe,
            9 => PacketType::Suback,
            10 => PacketType::Unsubscribe,
            11 => PacketType::Unsuback,
            12 => PacketType::Pingreq,
            13 => PacketType::Pingresp,
            14 => PacketType::Disconnect,
            _ => PacketType::Unknown,
        }
    }

    /// The type code of a packet type (§2.2.1): CONNECT 1 to DISCONNECT 14,
    /// and 0 for `Unknown`.
    pub open spec fn spec_code(self) -> u8 {
        match self {
            PacketType::Connect => 1,
            PacketType::Connack => 2,
            PacketType::Publish => 3,
            PacketType::Puback => 4,
            PacketType::Pubrec => 5,
            PacketType::Pubrel => 6,
            PacketType::Pubcomp => 7,
            PacketType::Subscribe => 8,
            PacketType::Suback => 9,
            PacketType::Unsubscribe => 10,
            PacketType::Unsuback => 11,
            PacketType::Pingreq => 12,
            PacketType::Pingresp => 13,
            PacketType::Disconnect => 14,
            PacketType::Unknown => 0,
        }
    }

    /// The type code of this packet type (see [`PacketType::spec_code`]).
    pub fn code(self) -> (r: u8)
        ensures
            r == self.spec_code(),
    {
        match self {
            PacketType::Connect => 1,
            PacketType::Connack => 2,
            PacketType::Publish => 3,
            PacketType::Puback => 4,
            PacketType::Pubrec => 5,
            PacketType::Pubrel => 6,
            PacketType::Pubcomp => 7,
            PacketType::Subscribe => 8,
            PacketType::Suback => 9,
            PacketType::Unsubscribe => 10,
            PacketType::Unsuback => 11,
            PacketType::Pingreq => 12,
            PacketType::Pingresp => 13,
            PacketType::Disconnect => 14,
            PacketType::Unknown => 0,
        }
    }
}

/// Type codes and packet types correspond: every known type's code names
/// it, and every code from 1 to 14 is the code of the type it names.
pub proof fn lemma_packet_type_code_roundtrip(t: PacketType, b: u8)
    ensures
        t != PacketType::Unknown ==> PacketType::spec_from_byte(t.spec_code()) == t,
        1 <= b <= 14 ==> PacketType::spec_from_byte(b).spec_code() == b,
{
}

/// The UTF-8 bytes of a `String`.
pub open spec fn string_bytes(s: String) -> Seq<u8> {
    encode_utf8(s@)
}

/// The big-endian bytes of a packet identifier.
pub open spec fn spec_pid(pid: u16) -> Seq<u8> {
    seq![(pid / 256) as u8, (pid % 256) as u8]
}

/// The variable header's protocol name: the string `MQTT`, length-prefixed.
pub open spec fn spec_protocol_name() -> Seq<u8> {
    seq![0x00u8, 0x04u8, 0x4Du8, 0x51u8, 0x54u8, 0x54u8]
}

/// The connect flags byte (§3.1.2.3): clean session 0x02, will 0x04, will
/// QoS at 0x08, will retain 0x20, password 0x40, user name 0x80.
pub open spec fn spec_connect_flags(opts: ConnectOptions) -> u8 {
    ((if opts.clean_session {
        2nat
    } else {
        0
    }) + (match opts.will {
        Some(w) => 4 + 8 * w.qos.spec_level() + (if w.retain {
            32nat
        } else {
            0
        }),
        None => 0,
    }) + (if opts.username.is_some() {
        128nat
    } else {
        0
    }) + (if opts.password.is_some() {
        64nat
    } else {
        0
    })) as u8
}

/// The body of the CONNECT packet for `opts` (§3.1): protocol name and
/// level 4, connect flags, keepalive, then client id, will topic and
/// payload, user name and password, the last four only when set.
pub open spec fn spec_connect_body(opts: ConnectOptions) -> Seq<u8> {
    spec_protocol_name() + seq![
        4u8,
        spec_connect_flags(opts),
        (opts.keepalive_secs / 256) as u8,
        (opts.keepalive_secs % 256) as u8,
    ] + spec_length_prefixed(string_bytes(opts.client_id)) + (match opts.will {
        Some(w) => spec_length_prefixed(string_bytes(w.topic)) + spec_length_prefixed(w.payload@),
        None => Seq::empty(),
    }) + (match opts.username {
        Some(u) => spec_length_prefixed(string_bytes(u)),
        None => Seq::empty(),
    }) + (match opts.password {
        Some(p) => spec_length_prefixed(p@),
        None => Seq::empty(),
    })
}

/// Every field of the CONNECT packet for `opts` fits its two-byte length.
pub open spec fn connect_fields_fit(opts: ConnectOptions) -> bool {
    &&& string_bytes(opts.client_id).len() <= MAX_FIELD_LENGTH
    &&& (opts.will matches Some(w) ==> string_bytes(w.topic).len() <= MAX_FIELD_LENGTH
        && w.payload@.len() <= MAX_FIELD_LENGTH)
    &&& (opts.username matches Some(u) ==> string_bytes(u).len() <= MAX_FIELD_LENGTH)
    &&& (opts.password matches Some(p) ==> p@.len() <= MAX_FIELD_LENGTH)
}

/// Build a CONNECT packet for MQTT v3.1.1.
pub fn build_connect(opts: &ConnectOptions) -> (r: Vec<u8>)
    requires
        connect_fields_fit(*opts),
    ensures
        r@ == spec_packet(1, 0, spec_connect_body(*opts)),
{
    let mut payload: Vec<u8> = Vec::new();
    payload.push(0x00);
    payload.push(0x04);
    payload.push(0x4D);
    payload.push(0x51);
    payload.push(0x54);
    payload.push(0x54);
    payload.push(4);
    let mut flags: u8 = 0;
    if opts.clean_session {
        flags = flags + 2;
    }
    match &opts.will {
        Some(will) => {
            flags = flags + 4 + 8 * will.qos.level();
            if will.retain {
                flags = flags + 32;
            }
        },
        None => {},
    }
    if opts.username.is_some() {
        flags = flags + 128;
    }
    if opts.password.is_some() {
        flags = flags + 64;
    }
    assert(flags == spec_connect_flags(*opts));
    payload.push(flags);
    payload.push((opts.keepalive_secs / 256) as u8);
    payload.push((opts.keepalive_secs % 256) as u8);
    let ghost head = payload@;
    assert(head =~= spec_protocol_name() + seq![
        4u8,
        spec_connect_flags(*opts),
        (opts.keepalive_secs / 256) as u8,
        (opts.keepalive_secs % 256) as u8,
    ]);
    encode_string(&mut payload, opts.client_id.as_str());
    let ghost after_id = payload@;
    match &opts.will {
        Some(will) => {
            encode_string(&mut payload, will.topic.as_str());
            encode_bytes(&mut payload, will.payload.as_slice());
        },
        None => {},
    }
    let ghost after_will = payload@;
    match &opts.username {
        Some(u) => {
            encode_string(&mut payload, u.as_str());
        },
        None => {},
    }
    let ghost after_user = payload@;
    match &opts.password {
        Some(p) => {
            encode_bytes(&mut payload, p.as_slice());
        },
        None => {},
    }
    assert(payload@ =~= spec_connect_body(*opts));
    assert(payload@.len() <= MAX_REMAINING_LENGTH);
    packet_with_header(1, 0, payload.as_slice())
}

/// The flags of a connect flags byte stand for the options (§3.1.2.3):
/// bit 7 is set exactly when a user name is given, bit 6 exactly when a
/// password is given, bit 5 when the will is retained, bits 4-3 hold the
/// will's QoS, bit 2 is set exactly when there is a will, bit 1 exactly for
/// a clean session, and bit 0 (reserved) is clear.
pub open spec fn connect_flags_stand_for(flags: u8, opts: ConnectOptions) -> bool {
    &&& (flags as nat / 128) % 2 == 1 <==> opts.username is Some
    &&& (flags as nat / 64) % 2 == 1 <==> opts.password is Some
    &&& (flags as nat / 32) % 2 == 1 <==> (opts.will matches Some(w) && w.retain)
    &&& (flags as nat / 8) % 4 == match opts.will {
        Some(w) => w.qos.spec_level() as nat,
        None => 0,
    }
    &&& (flags as nat / 4) % 2 == 1 <==> opts.will is Some
    &&& (flags as nat / 2) % 2 == 1 <==> opts.clean_session
    &&& flags % 2 == 0
}

/// The CONNECT packet says what the options say: it starts with the
/// CONNECT type byte 0x10 and, after the Remaining Length, the protocol
/// name `MQTT` and level 4; its connect flags byte carries each option in
/// its own bit (user name 0x80, password 0x40, and so on), and the two
/// bytes after it are the keepalive, high byte first.
pub proof fn lemma_connect_packet_header(opts: ConnectOptions)
    ensures
        ({
            let body = spec_connect_body(opts);
            let pkt = spec_packet(1, 0, body);
            let h: int = 1 + spec_varint(body.len() as nat).len() as int;
            &&& pkt[0] == 0x10
            &&& pkt.subrange(h, h + 7) == seq![0x00u8, 0x04u8, 0x4Du8, 0x51u8, 0x54u8, 0x54u8, 4u8]
            &&& connect_flags_stand_for(pkt[h + 7], opts)
            &&& pkt[h + 8] as nat * 256 + pkt[h + 9] as nat == opts.keepalive_secs as nat
        }),
{
    let body = spec_connect_body(opts);
    let v = spec_varint(body.len() as nat);
    let pkt = spec_packet(1, 0, body);
    let h: int = 1 + v.len() as int;
    assert(pkt == seq![(1u8 * 16 + 0u8) as u8] + v + body);
    assert(body.len() >= 10);
    assert forall|k: int| 0 <= k < 10 implies pkt[h + k] == body[k] by {}
    assert(pkt.subrange(h, h + 7) =~= seq![0x00u8, 0x04u8, 0x4Du8, 0x51u8, 0x54u8, 0x54u8, 4u8]);
    let flags = spec_connect_flags(opts);
    assert(body[7] == flags);
    let c: nat = if opts.clean_session { 1 } else { 0 };
    let u: nat = if opts.username is Some { 1 } else { 0 };
    let pw: nat = if opts.password is Some { 1 } else { 0 };
    let w: nat = if opts.will is Some { 1 } else { 0 };
    let q: nat = match opts.will {
        Some(x) => x.qos.spec_level() as nat,
        None => 0,
    };
    let r: nat = match opts.will {
        Some(x) => if x.retain { 1 } else { 0 },
        None => 0,
    };
    assert(q <= 2);
    assert(w == 0 ==> q == 0 && r == 0);
    assert(flags as nat == 2 * c + 4 * w + 8 * q + 32 * r + 64 * pw + 128 * u);
    lemma_flag_bits(c, w, q, r, pw, u, flags as nat);
    assert(opts.keepalive_secs / 256 * 256 + opts.keepalive_secs % 256 == opts.keepalive_secs);
}

/// Reading back the bits of a flags byte built from its parts.
proof fn lemma_flag_bits(c: nat, w: nat, q: nat, r: nat, pw: nat, u: nat, f: nat)
    requires
        c <= 1,
        w <= 1,
        q <= 2,
        r <= 1,
        pw <= 1,
        u <= 1,
        f == 2 * c + 4 * w + 8 * q + 32 * r + 64 * pw + 128 * u,
    ensures
        (f / 128) % 2 == u,
        (f / 64) % 2 == pw,
        (f / 32) % 2 == r,
        (f / 8) % 4 == q,
        (f / 4) % 2 == w,
        (f / 2) % 2 == c,
        f % 2 == 0,
{
    let x = c + 2 * w + 4 * q + 16 * r + 32 * pw + 64 * u;
    assert(f == 2 * x);
    assert(f / 2 == x);
    assert(x == 2 * (w + 2 * q + 8 * r + 16 * pw + 32 * u) + c);
    assert(f / 4 == w + 2 * q + 8 * r + 16 * pw + 32 * u);
    assert(f / 8 == q + 4 * r + 8 * pw + 16 * u);
    assert(q + 4 * r + 8 * pw + 16 * u == 4 * (r + 2 * pw + 4 * u) + q);
    assert(f / 32 == r + 2 * pw + 4 * u);
    assert(f / 64 == pw + 2 * u);
    assert(f / 128 == u);
}

/// DISCONNECT (§3.14): type 14, no body.
pub fn build_disconnect() -> (r: Vec<u8>)
    ensures
        r@ == seq![0xE0u8, 0x00u8],
        r@ == spec_packet(14, 0, Seq::empty()),
{
    let r = vec![0xE0u8, 0x00u8];
    assert(spec_packet(14, 0, Seq::empty()) =~= seq![0xE0u8, 0x00u8]);
    r
}

/// PINGREQ (§3.12): type 12, no body.
pub fn build_pingreq() -> (r: Vec<u8>)
    ensures
        r@ == seq![0xC0u8, 0x00u8],
        r@ == spec_packet(12, 0, Seq::empty()),
{
    let r = vec![0xC0u8, 0x00u8];
    assert(spec_packet(12, 0, Seq::empty()) =~= seq![0xC0u8, 0x00u8]);
    r
}

/// The body of a PUBLISH (§3.3): the topic, the packet identifier when the
/// QoS level is above 0, then the payload.
pub open spec fn spec_publish_body(
    topic: Seq<u8>,
    payload: Seq<u8>,
    qos: QoS,
    packet_id: Option<u16>,
) -> Seq<u8> {
    spec_length_prefixed(topic) + (if qos != QoS::AtMostOnce {
        spec_pid(packet_id.unwrap())
    } else {
        Seq::empty()
    }) + payload
}

/// The PUBLISH flags: QoS level in bits 1-2, retain in bit 0.
pub open spec fn spec_publish_flags(qos: QoS, retained: bool) -> u8 {
    (2 * qos.spec_level() + if retained {
        1nat
    } else {
        0
    }) as u8
}

/// What a PUBLISH needs to be well formed: a topic that fits its length
/// prefix, a packet identifier when the QoS level is above 0 (§3.3.2.2), and
/// a body within the largest Remaining Length.
pub open spec fn publish_fits(topic: Seq<u8>, payload: Seq<u8>, qos: QoS, packet_id: Option<u16>) -> bool {
    &&& topic.len() <= MAX_FIELD_LENGTH
    &&& (qos != QoS::AtMostOnce ==> packet_id.is_some())
    &&& topic.len() + payload.len() + 2 + (if qos != QoS::AtMostOnce {
        2int
    } else {
        0
    }) <= MAX_REMAINING_LENGTH
}

/// Build a PUBLISH packet. A QoS level above 0 needs a packet identifier;
/// at QoS 0 any identifier given is not written.
pub fn build_publish(
    topic: &str,
    payload: &[u8],
    qos: QoS,
    retained: bool,
    packet_id: Option<u16>,
) -> (r: Vec<u8>)
    requires
        publish_fits(topic.spec_bytes(), payload@, qos, packet_id),
    ensures
        r@ == spec_packet(
            3,
            spec_publish_flags(qos, retained),
            spec_publish_body(topic.spec_bytes(), payload@, qos, packet_id),
        ),
{
    let mut body: Vec<u8> = Vec::new();
    encode_string(&mut body, topic);
    let ghost after_topic = body@;
    if qos != QoS::AtMostOnce {
        let pid = match packet_id {
            Some(p) => p,
            None => 0,
        };
        body.push((pid / 256) as u8);
        body.push((pid % 256) as u8);
    }
    let ghost after_pid = body@;
    append_bytes(&mut body, payload);
    assert(body@ =~= spec_publish_body(topic.spec_bytes(), payload@, qos, packet_id));
    let flags: u8 = 2 * qos.level() + if retained {
        1
    } else {
        0
    };
    packet_with_header(3, flags, body.as_slice())
}

/// Append every byte of `b` to `buf`.
pub fn append_bytes(buf: &mut Vec<u8>, b: &[u8])
    ensures
        final(buf)@ == old(buf)@ + b@,
{
    let ghost start = buf@;
    let mut i: usize = 0;
    while i < b.len()
        invariant
            0 <= i <= b@.len(),
            buf@ == start + b@.subrange(0, i as int),
        decreases b@.len() - i,
    {
        buf.push(b[i]);
        assert(b@.subrange(0, i + 1) =~= b@.subrange(0, i as int).push(b@[i as int]));
        i = i + 1;
    }
    assert(b@.subrange(0, b@.len() as int) =~= b@);
}

/// Build a SUBSCRIBE packet for one filter (§3.8): type 8, flags 0b0010,
/// packet identifier, filter, requested QoS.
pub fn build_subscribe(filter: &str, qos: QoS, packet_id: u16) -> (r: Vec<u8>)
    requires
        filter.spec_bytes().len() <= MAX_FIELD_LENGTH,
    ensures
        r@ == spec_packet(
            8,
            2,
            spec_pid(packet_id) + spec_length_prefixed(filter.spec_bytes()) + seq![
                qos.spec_level(),
            ],
        ),
{
    let mut body: Vec<u8> = Vec::new();
    body.push((packet_id / 256) as u8);
    body.push((packet_id % 256) as u8);
    encode_string(&mut body, filter);
    body.push(qos.level());
    assert(body@ =~= spec_pid(packet_id) + spec_length_prefixed(filter.spec_bytes()) + seq![
        qos.spec_level(),
    ]);
    packet_with_header(8, 2, body.as_slice())
}

/// Build an UNSUBSCRIBE packet for one filter (§3.10): type 10, flags
/// 0b0010, packet identifier, filter.
pub fn build_unsubscribe(filter: &str, packet_id: u16) -> (r: Vec<u8>)
    requires
        filter.spec_bytes().len() <= MAX_FIELD_LENGTH,
    ensures
        r@ == spec_packet(10, 2, spec_pid(packet_id) + spec_length_prefixed(filter.spec_bytes())),
{
    let mut body: Vec<u8> = Vec::new();
    body.push((packet_id / 256) as u8);
    body.push((packet_id % 256) as u8);
    encode_string(&mut body, filter);
    assert(body@ =~= spec_pid(packet_id) + spec_length_prefixed(filter.spec_bytes()));
    packet_with_header(10, 2, body.as_slice())
}

/// A packet whose body is just a packet identifier.
fn pid_packet(ptype: u8, flags: u8, packet_id: u16) -> (r: Vec<u8>)
    requires
        ptype < 16,
        flags < 16,
    ensures
        r@ == spec_packet(ptype, flags, spec_pid(packet_id)),
{
    let mut body: Vec<u8> = Vec::new();
    body.push((packet_id / 256) as u8);
    body.push((packet_id % 256) as u8);
    assert(body@ =~= spec_pid(packet_id));
    packet_with_header(ptype, flags, body.as_slice())
}

/// Build a PUBACK packet (§3.4), acknowledging a QoS 1 PUBLISH.
pub fn build_puback(packet_id: u16) -> (r: Vec<u8>)
    ensures
        r@ == spec_packet(4, 0, spec_pid(packet_id)),
{
    pid_packet(4, 0, packet_id)
}

/// Build a PUBREC packet (receiver to sender, acknowledges receipt of a QoS
/// 2 PUBLISH; §3.5).
pub fn build_pubrec(packet_id: u16) -> (r: Vec<u8>)
    ensures
        r@ == spec_packet(5, 0, spec_pid(packet_id)),
{
    pid_packet(5, 0, packet_id)
}

/// Build a PUBREL packet (sender to receiver, releases a QoS 2 PUBLISH after
/// PUBREC; §3.6). Its fixed header flags are the reserved `0b0010`.
pub fn build_pubrel(packet_id: u16) -> (r: Vec<u8>)
    ensures
        r@ == spec_packet(6, 2, spec_pid(packet_id)),
{
    pid_packet(6, 2, packet_id)
}

/// Build a PUBCOMP packet (receiver to sender, completes a QoS 2 exchange
/// after PUBREL; §3.7).
pub fn build_pubcomp(packet_id: u16) -> (r: Vec<u8>)
    ensures
        r@ == spec_packet(7, 0, spec_pid(packet_id)),
{
    pid_packet(7, 0, packet_id)
}

} // verus!

verus! {

/// Why an incoming PUBLISH body was not accepted.
#[derive(Debug, Clone, Copy, PartialEq, Eq, Structural)]
pub enum PublishError {
    /// Both QoS bits are set (MQTT-3.3.1-4): the connection must be closed.
    InvalidQoS,
    /// The body ends inside the topic or the packet identifier.
    Truncated,
    /// The topic is not valid UTF-8.
    InvalidTopic,
}

/// The big-endian 16-bit value of two bytes.
pub open spec fn be16(hi: u8, lo: u8) -> nat {
    hi as nat * 256 + lo as nat
}

/// What an incoming PUBLISH with header flags `flags` and body `body`
/// carries (§3.3): QoS level from flag bits 1-2 (3 is refused), retain from
/// bit 0; a length-prefixed UTF-8 topic; a packet identifier when the QoS
/// level is above 0; the rest of the body is the payload.
pub open spec fn spec_parse_publish(flags: u8, body: Seq<u8>) -> Result<
    crate::message::MessageView,
    PublishError,
> {
    let qos_bits = ((flags / 2) % 4) as u8;
    if qos_bits == 3 {
        Err(PublishError::InvalidQoS)
    } else if body.len() < 2 {
        Err(PublishError::Truncated)
    } else {
        let tlen = be16(body[0], body[1]) as int;
        if body.len() < 2 + tlen {
            Err(PublishError::Truncated)
        } else if !vstd::utf8::valid_utf8(body.subrange(2, 2 + tlen)) {
            Err(PublishError::InvalidTopic)
        } else if qos_bits > 0 && body.len() < 4 + tlen {
            Err(PublishError::Truncated)
        } else {
            let off = if qos_bits > 0 {
                4 + tlen
            } else {
                2 + tlen
            };
            Ok(
                crate::message::plain_message_view(
                    vstd::utf8::decode_utf8(body.subrange(2, 2 + tlen)),
                    body.subrange(off, body.len() as int),
                    QoS::spec_from_level(qos_bits).unwrap(),
                    flags % 2 == 1,
                    if qos_bits > 0 {
                        be16(body[2 + tlen], body[3 + tlen]) as u16
                    } else {
                        0
                    },
                ),
            )
        }
    }
}

/// The bytes `b[start..end]` as a new vector.
pub fn copy_range(b: &[u8], start: usize, end: usize) -> (r: Vec<u8>)
    requires
        start <= end <= b@.len(),
    ensures
        r@ == b@.subrange(start as int, end as int),
{
    let mut r: Vec<u8> = Vec::new();
    let mut i = start;
    while i < end
        invariant
            start <= i <= end <= b@.len(),
            r@ == b@.subrange(start as int, i as int),
        decreases end - i,
    {
        r.push(b[i]);
        assert(b@.subrange(start as int, i + 1) =~= b@.subrange(start as int, i as int).push(
            b@[i as int],
        ));
        i = i + 1;
    }
    r
}

/// Decode the body of an incoming PUBLISH (see [`spec_parse_publish`]).
pub fn parse_publish(flags: u8, body: &[u8]) -> (r: Result<crate::message::Message, PublishError>)
    ensures
        match r {
            Ok(m) => spec_parse_publish(flags, body@) == Ok::<
                crate::message::MessageView,
                PublishError,
            >(m@),
            Err(e) => spec_parse_publish(flags, body@) == Err::<
                crate::message::MessageView,
                PublishError,
            >(e),
        },
{
    let qos_bits = (flags / 2) % 4;
    if qos_bits == 3 {
        return Err(PublishError::InvalidQoS);
    }
    if body.len() < 2 {
        return Err(PublishError::Truncated);
    }
    let tlen = body[0] as usize * 256 + body[1] as usize;
    if body.len() < 2 + tlen {
        return Err(PublishError::Truncated);
    }
    let topic_bytes = &body[2..2 + tlen];
    assert(topic_bytes@ =~= body@.subrange(2, 2 + tlen));
    let topic = match crate::text::str_from_utf8(topic_bytes) {
        Some(s) => s,
        None => {
            return Err(PublishError::InvalidTopic);
        },
    };
    proof {
        vstd::utf8::encode_utf8_decode_utf8(topic@);
    }
    let mut off = 2 + tlen;
    let mut packet_id: u16 = 0;
    if qos_bits > 0 {
        if body.len() < off + 2 {
            return Err(PublishError::Truncated);
        }
        packet_id = (body[off] as u16) * 256 + body[off + 1] as u16;
        off = off + 2;
    }
    let qos = match QoS::from_level(qos_bits) {
        Some(q) => q,
        None => QoS::AtMostOnce,
    };
    let payload = copy_range(body, off, body.len());
    let m = crate::message::Message::plain(
        crate::text::owned(topic),
        payload,
        qos,
        flags % 2 == 1,
        packet_id,
    );
    Ok(m)
}

/// PUBLISH round trip: the packet that [`build_publish`] makes for a topic,
/// payload, QoS level, retained flag and packet identifier starts with the
/// PUBLISH type and the flags, its Remaining Length reads back as the length
/// of the body that follows it, and that body decodes to a message with the
/// same topic, payload, QoS level, retained flag, and the packet identifier
/// (0 at QoS 0).
pub proof fn lemma_publish_roundtrip(
    topic: Seq<char>,
    payload: Seq<u8>,
    qos: QoS,
    retained: bool,
    packet_id: Option<u16>,
)
    requires
        publish_fits(encode_utf8(topic), payload, qos, packet_id),
    ensures
        ({
            let flags = spec_publish_flags(qos, retained);
            let body = spec_publish_body(encode_utf8(topic), payload, qos, packet_id);
            let pkt = spec_packet(3, flags, body);
            let rl = spec_varint(body.len() as nat);
            &&& pkt[0] / 16 == 3
            &&& pkt[0] % 16 == flags
            &&& super::codec::spec_decode_remaining_length(pkt.subrange(1, pkt.len() as int))
                == (super::codec::RemainingLength::Complete {
                value: body.len() as usize,
                consumed: rl.len() as usize,
            })
            &&& pkt.subrange(1 + rl.len() as int, pkt.len() as int) == body
            &&& spec_parse_publish(flags, body) == Ok::<
                crate::message::MessageView,
                PublishError,
            >(
                crate::message::plain_message_view(
                    topic,
                    payload,
                    qos,
                    retained,
                    if qos == QoS::AtMostOnce {
                        0
                    } else {
                        packet_id.unwrap()
                    },
                ),
            )
        }),
{
    let flags = spec_publish_flags(qos, retained);
    let tb = encode_utf8(topic);
    let body = spec_publish_body(tb, payload, qos, packet_id);
    let pkt = spec_packet(3, flags, body);
    let rl = spec_varint(body.len() as nat);
    super::codec::lemma_remaining_length_roundtrip(body.len() as nat, body);
    assert(pkt.subrange(1, pkt.len() as int) =~= rl + body);
    assert(pkt.subrange(1 + rl.len() as int, pkt.len() as int) =~= body);
    vstd::utf8::encode_utf8_valid_utf8(topic);
    vstd::utf8::encode_utf8_decode_utf8(topic);
    let tlen = tb.len() as int;
    assert(be16(body[0], body[1]) == tlen);
    assert(body.subrange(2, 2 + tlen) =~= tb);
    let qos_bits = ((flags / 2) % 4) as u8;
    assert(qos_bits == qos.spec_level());
    if qos != QoS::AtMostOnce {
        let pid = packet_id.unwrap();
        assert(be16(body[2 + tlen], body[3 + tlen]) == pid);
        assert(body.subrange(4 + tlen, body.len() as int) =~= payload);
    } else {
        assert(body.subrange(2 + tlen, body.len() as int) =~= payload);
    }
}

} // verus!
