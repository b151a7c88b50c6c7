//! The decisions of the embedded MQTT v3.1.1 broker: for each packet a
//! client connection sends, which packets go to which connection, and how
//! the shared subscriptions, retained messages and the connection's held
//! QoS 2 messages change. Reading packets off the sockets and writing the
//! replies is left to the caller.

use vstd::prelude::*;
use vstd::string::StringSliceAdditionalSpecFns;
use vstd::utf8::{decode_utf8, encode_utf8, valid_utf8};

use crate::message::{plain_message_view, Message, MessageView, QoS};
use crate::mock::{distinct_topics, lemma_retain, spec_retain, views, wadd};
use crate::topic::{match_topic, spec_match_topic};
use crate::v3::codec::{
    encode_string, packet_with_header, spec_length_prefixed, spec_packet, MAX_FIELD_LENGTH,
    MAX_REMAINING_LENGTH,
};
use crate::v3::packet::{append_bytes, be16, copy_range, spec_pid, spec_publish_flags};

verus! {

/// A subscription held by the broker: its identifier, its filter, and the
/// connection its messages go to.
pub struct BrokerSub {
    pub id: u64,
    pub filter: String,
    pub session: u64,
}

pub struct BrokerSubView {
    pub id: u64,
    pub filter: Seq<char>,
    pub session: u64,
}

impl View for BrokerSub {
    type V = BrokerSubView;

    open spec fn view(&self) -> BrokerSubView {
        BrokerSubView { id: self.id, filter: self.filter@, session: self.session }
    }
}

/// A QoS 2 message a connection has published and not yet released with
/// PUBREL; also what an incoming PUBLISH carries.
pub struct HeldMessage {
    pub packet_id: u16,
    pub topic: String,
    pub payload: Vec<u8>,
}

pub struct HeldView {
    pub packet_id: u16,
    pub topic: Seq<char>,
    pub payload: Seq<u8>,
}

impl View for HeldMessage {
    type V = HeldView;

    open spec fn view(&self) -> HeldView {
        HeldView { packet_id: self.packet_id, topic: self.topic@, payload: self.payload@ }
    }
}

/// One client connection: its identifier and the QoS 2 messages it holds,
/// at most one per packet identifier.
pub struct Session {
    id: u64,
    held: Vec<HeldMessage>,
}

pub struct SessionView {
    pub id: u64,
    pub held: Seq<HeldView>,
}

impl View for Session {
    type V = SessionView;

    closed spec fn view(&self) -> SessionView {
        SessionView { id: self.id, held: self.held@.map_values(|h: HeldMessage| h@) }
    }
}

/// The state all connections share: the subscriptions in the order they
/// were made, the retained messages (one per topic), and the next
/// subscription and connection identifiers.
pub struct BrokerCore {
    subs: Vec<BrokerSub>,
    retained: Vec<Message>,
    next_id: u64,
    next_session: u64,
}

pub struct CoreView {
    pub subs: Seq<BrokerSubView>,
    pub retained: Seq<MessageView>,
    pub next_id: u64,
    pub next_session: u64,
}

impl View for BrokerCore {
    type V = CoreView;

    closed spec fn view(&self) -> CoreView {
        CoreView {
            subs: self.subs@.map_values(|s: BrokerSub| s@),
            retained: views(self.retained@),
            next_id: self.next_id,
            next_session: self.next_session,
        }
    }
}

/// A packet to write to the connection `session`.
pub struct Outbound {
    pub session: u64,
    pub packet: Vec<u8>,
}

impl View for Outbound {
    type V = (u64, Seq<u8>);

    open spec fn view(&self) -> (u64, Seq<u8>) {
        (self.session, self.packet@)
    }
}

/// What handling one packet asks of the caller: the packets to write, in
/// order, and whether to end the connection.
pub struct Reaction {
    pub out: Vec<Outbound>,
    pub disconnect: bool,
}

/// The views of a list of outbound packets.
pub open spec fn outs(o: Seq<Outbound>) -> Seq<(u64, Seq<u8>)> {
    o.map_values(|x: Outbound| x@)
}

/// A message fits a PUBLISH the broker frames without a packet identifier:
/// its topic fits its length prefix and the body fits a Remaining Length.
pub open spec fn fits(topic: Seq<char>, payload: Seq<u8>) -> bool {
    &&& encode_utf8(topic).len() <= MAX_FIELD_LENGTH
    &&& encode_utf8(topic).len() + payload.len() + 2 <= MAX_REMAINING_LENGTH
}

/// No two held messages share a packet identifier.
pub open spec fn distinct_pids(h: Seq<HeldView>) -> bool {
    forall|i: int, j: int| 0 <= i < j < h.len() ==> h[i].packet_id != h[j].packet_id
}

/// The shared state is consistent: retained messages have distinct topics,
/// carry the retained flag, and fit a PUBLISH.
pub open spec fn core_wf(c: CoreView) -> bool {
    &&& distinct_topics(c.retained)
    &&& forall|i: int| 0 <= i < c.retained.len() ==> (#[trigger] c.retained[i]).retained
    &&& forall|i: int|
        0 <= i < c.retained.len() ==> fits(#[trigger] c.retained[i].topic, c.retained[i].payload)
}

/// A connection's state is consistent.
pub open spec fn session_wf(s: SessionView) -> bool {
    &&& distinct_pids(s.held)
    &&& forall|i: int| 0 <= i < s.held.len() ==> fits(#[trigger] s.held[i].topic, s.held[i].payload)
}

/// The PUBLISH packet the broker frames (§3.3): flags from the QoS level
/// and the retain flag; body of the length-prefixed topic, the packet
/// identifier when one is given, then the payload.
pub open spec fn spec_broker_publish(
    topic: Seq<u8>,
    payload: Seq<u8>,
    qos: QoS,
    retained: bool,
    packet_id: Option<u16>,
) -> Seq<u8> {
    spec_packet(
        3,
        spec_publish_flags(qos, retained),
        spec_length_prefixed(topic) + match packet_id {
            Some(p) => spec_pid(p),
            None => Seq::empty(),
        } + payload,
    )
}

/// What [`build_publish_pkt`] needs: a topic that fits its length prefix
/// and a body that fits a Remaining Length (§1.5.3, §2.2.3).
pub open spec fn broker_publish_fits(topic: Seq<u8>, payload: Seq<u8>, packet_id: Option<u16>) -> bool {
    &&& topic.len() <= MAX_FIELD_LENGTH
    &&& topic.len() + payload.len() + 2 + (if packet_id is Some {
        2int
    } else {
        0
    }) <= MAX_REMAINING_LENGTH
}

/// The packet that carries a published message on to a subscriber: QoS 0,
/// not retained, no packet identifier, whatever QoS it was published at.
pub open spec fn relay_packet(topic: Seq<char>, payload: Seq<u8>) -> Seq<u8> {
    spec_broker_publish(encode_utf8(topic), payload, QoS::AtMostOnce, false, None)
}

/// The packet that hands a retained message to a new subscriber: QoS 0,
/// retained, no packet identifier.
pub open spec fn replay_packet(m: MessageView) -> Seq<u8> {
    spec_broker_publish(encode_utf8(m.topic), m.payload, QoS::AtMostOnce, true, None)
}

/// `filter` matches `topic` (§4.7).
pub open spec fn matches(filter: Seq<char>, topic: Seq<char>) -> bool {
    spec_match_topic(encode_utf8(filter), encode_utf8(topic))
}

/// One copy of `pkt` for the connection of each subscription whose filter
/// matches `topic`, in subscription order.
pub open spec fn spec_deliveries(subs: Seq<BrokerSubView>, topic: Seq<char>, pkt: Seq<u8>) -> Seq<
    (u64, Seq<u8>),
>
    decreases subs.len(),
{
    if subs.len() == 0 {
        Seq::empty()
    } else {
        let p = spec_deliveries(subs.drop_last(), topic, pkt);
        if matches(subs.last().filter, topic) {
            p.push((subs.last().session, pkt))
        } else {
            p
        }
    }
}

/// The retained messages whose topic `filter` matches, each framed for
/// the connection `session`, in the order they were retained.
pub open spec fn spec_replay(retained: Seq<MessageView>, filter: Seq<char>, session: u64) -> Seq<
    (u64, Seq<u8>),
>
    decreases retained.len(),
{
    if retained.len() == 0 {
        Seq::empty()
    } else {
        let p = spec_replay(retained.drop_last(), filter, session);
        if matches(filter, retained.last().topic) {
            p.push((session, replay_packet(retained.last())))
        } else {
            p
        }
    }
}

/// The subscriptions without those whose filter is `filter`.
pub open spec fn spec_drop_filter(subs: Seq<BrokerSubView>, filter: Seq<char>) -> Seq<
    BrokerSubView,
>
    decreases subs.len(),
{
    if subs.len() == 0 {
        subs
    } else {
        let p = spec_drop_filter(subs.drop_last(), filter);
        if subs.last().filter == filter {
            p
        } else {
            p.push(subs.last())
        }
    }
}

/// The subscriptions without those of the connection `session`.
pub open spec fn spec_drop_session(subs: Seq<BrokerSubView>, session: u64) -> Seq<BrokerSubView>
    decreases subs.len(),
{
    if subs.len() == 0 {
        subs
    } else {
        let p = spec_drop_session(subs.drop_last(), session);
        if subs.last().session == session {
            p
        } else {
            p.push(subs.last())
        }
    }
}

/// The position of the held message with packet identifier `pid`.
pub open spec fn spec_find_held(held: Seq<HeldView>, pid: u16) -> Option<int> {
    if exists|i: int| 0 <= i < held.len() && held[i].packet_id == pid {
        Some(choose|i: int| 0 <= i < held.len() && held[i].packet_id == pid)
    } else {
        None
    }
}

/// The held list after holding `h`: it replaces the message held under its
/// packet identifier, or joins the end.
pub open spec fn spec_hold(held: Seq<HeldView>, h: HeldView) -> Seq<HeldView> {
    match spec_find_held(held, h.packet_id) {
        Some(i) => held.update(i, h),
        None => held.push(h),
    }
}

/// The QoS level of the PUBLISH flag bits `bits`; 0 for the invalid 3.
pub open spec fn qos_of_bits(bits: u8) -> QoS {
    match QoS::spec_from_level(bits) {
        Some(q) => q,
        None => QoS::AtMostOnce,
    }
}

/// What the broker reads from a PUBLISH body with header flags `flags`
/// (§3.3): a length-prefixed UTF-8 topic; when the QoS bits are not 0 and
/// two more bytes follow, the packet identifier (else 0); the rest is the
/// payload. Nothing, when the topic is cut short or not UTF-8.
pub open spec fn spec_inbound_publish(flags: u8, body: Seq<u8>) -> Option<HeldView> {
    if body.len() < 2 {
        None
    } else {
        let tlen = be16(body[0], body[1]) as int;
        if body.len() < 2 + tlen || !valid_utf8(body.subrange(2, 2 + tlen)) {
            None
        } else {
            let with_pid = (flags / 2) % 4 > 0 && body.len() >= 4 + tlen;
            let off = if with_pid {
                4 + tlen
            } else {
                2 + tlen
            };
            Some(
                HeldView {
                    packet_id: if with_pid {
                        be16(body[2 + tlen], body[3 + tlen]) as u16
                    } else {
                        0
                    },
                    topic: decode_utf8(body.subrange(2, 2 + tlen)),
                    payload: body.subrange(off, body.len() as int),
                },
            )
        }
    }
}

/// What the broker reads from a SUBSCRIBE or UNSUBSCRIBE body: the packet
/// identifier and the first topic filter, when it is whole and UTF-8.
pub open spec fn spec_filter_request(body: Seq<u8>) -> Option<(u16, Seq<char>)> {
    if body.len() < 4 {
        None
    } else {
        let flen = be16(body[2], body[3]) as int;
        if body.len() < 4 + flen || !valid_utf8(body.subrange(4, 4 + flen)) {
            None
        } else {
            Some((be16(body[0], body[1]) as u16, decode_utf8(body.subrange(4, 4 + flen))))
        }
    }
}

/// The QoS a SUBSCRIBE body requests for its first filter: the byte after
/// it, or 0 when there is none.
pub open spec fn requested_qos(body: Seq<u8>) -> u8 {
    let flen = be16(body[2], body[3]) as int;
    if body.len() > 4 + flen {
        body[4 + flen]
    } else {
        0
    }
}

/// The outcome of handling one packet.
pub struct Step {
    pub core: CoreView,
    pub session: SessionView,
    pub out: Seq<(u64, Seq<u8>)>,
    pub disconnect: bool,
}

/// Nothing changes and nothing is sent.
pub open spec fn idle(c: CoreView, s: SessionView) -> Step {
    Step { core: c, session: s, out: Seq::empty(), disconnect: false }
}

/// A PUBLISH with header flags `flags` and body `body` from the connection
/// `s`. With the retain flag the message is retained for its topic (at the
/// QoS level of its bits, 0 for the invalid 3). At QoS 2 it is held under
/// its packet identifier and answered with PUBREC, nothing more; otherwise
/// every matching subscription gets it at QoS 0, and at QoS 1 the
/// publisher gets a PUBACK after that.
pub open spec fn spec_on_publish(c: CoreView, s: SessionView, flags: u8, body: Seq<u8>) -> Step {
    match spec_inbound_publish(flags, body) {
        None => idle(c, s),
        Some(h) => {
            let bits = ((flags / 2) % 4) as u8;
            let c1 = if flags % 2 == 1 {
                CoreView {
                    retained: spec_retain(
                        c.retained,
                        plain_message_view(h.topic, h.payload, qos_of_bits(bits), true, 0),
                    ),
                    ..c
                }
            } else {
                c
            };
            if bits == 2 {
                Step {
                    core: c1,
                    session: SessionView { held: spec_hold(s.held, h), ..s },
                    out: seq![(s.id, spec_packet(5, 0, spec_pid(h.packet_id)))],
                    disconnect: false,
                }
            } else {
                let d = spec_deliveries(c1.subs, h.topic, relay_packet(h.topic, h.payload));
                Step {
                    core: c1,
                    session: s,
                    out: if bits == 1 {
                        d.push((s.id, spec_packet(4, 0, spec_pid(h.packet_id))))
                    } else {
                        d
                    },
                    disconnect: false,
                }
            }
        },
    }
}

/// A PUBREL: the message held under its packet identifier, if any, is
/// released to every matching subscription at QoS 0; PUBCOMP follows.
pub open spec fn spec_on_pubrel(c: CoreView, s: SessionView, body: Seq<u8>) -> Step {
    if body.len() < 2 {
        idle(c, s)
    } else {
        let pid = be16(body[0], body[1]) as u16;
        let comp = (s.id, spec_packet(7, 0, spec_pid(pid)));
        match spec_find_held(s.held, pid) {
            Some(i) => Step {
                core: c,
                session: SessionView { held: s.held.remove(i), ..s },
                out: spec_deliveries(
                    c.subs,
                    s.held[i].topic,
                    relay_packet(s.held[i].topic, s.held[i].payload),
                ).push(comp),
                disconnect: false,
            },
            None => Step { core: c, session: s, out: seq![comp], disconnect: false },
        }
    }
}

/// A SUBSCRIBE: a new subscription of the connection to the first filter,
/// under the next identifier; every retained message it matches goes to the
/// connection, then a SUBACK granting the requested QoS.
pub open spec fn spec_on_subscribe(c: CoreView, s: SessionView, body: Seq<u8>) -> Step {
    match spec_filter_request(body) {
        None => idle(c, s),
        Some((pid, filter)) => Step {
            core: CoreView {
                subs: c.subs.push(BrokerSubView { id: c.next_id, filter, session: s.id }),
                next_id: wadd(c.next_id, 1),
                ..c
            },
            session: s,
            out: spec_replay(c.retained, filter, s.id).push(
                (s.id, spec_packet(9, 0, spec_pid(pid).push(requested_qos(body)))),
            ),
            disconnect: false,
        },
    }
}

/// An UNSUBSCRIBE: every subscription to the filter, of any connection,
/// ends; UNSUBACK follows.
pub open spec fn spec_on_unsubscribe(c: CoreView, s: SessionView, body: Seq<u8>) -> Step {
    match spec_filter_request(body) {
        None => idle(c, s),
        Some((pid, filter)) => Step {
            core: CoreView { subs: spec_drop_filter(c.subs, filter), ..c },
            session: s,
            out: seq![(s.id, spec_packet(11, 0, spec_pid(pid)))],
            disconnect: false,
        },
    }
}

/// Handling the packet whose first header byte is `first` and whose body is
/// `body`, from the connection `s`: PUBLISH, PUBREL, SUBSCRIBE and
/// UNSUBSCRIBE as above, PINGREQ answered with PINGRESP, DISCONNECT ending
/// the connection, anything else ignored.
pub open spec fn spec_handle(c: CoreView, s: SessionView, first: u8, body: Seq<u8>) -> Step {
    let ptype = first / 16;
    if ptype == 3 {
        spec_on_publish(c, s, first % 16, body)
    } else if ptype == 6 {
        spec_on_pubrel(c, s, body)
    } else if ptype == 8 {
        spec_on_subscribe(c, s, body)
    } else if ptype == 10 {
        spec_on_unsubscribe(c, s, body)
    } else if ptype == 12 {
        Step { core: c, session: s, out: seq![(s.id, spec_packet(13, 0, Seq::empty()))], disconnect: false }
    } else if ptype == 14 {
        Step { core: c, session: s, out: Seq::empty(), disconnect: true }
    } else {
        idle(c, s)
    }
}

/// Frame a PUBLISH packet (see [`spec_broker_publish`]).
pub fn build_publish_pkt(
    topic: &str,
    payload: &[u8],
    qos: QoS,
    retained: bool,
    packet_id: Option<u16>,
) -> (r: Vec<u8>)
    requires
        broker_publish_fits(topic.spec_bytes(), payload@, packet_id),
    ensures
        r@ == spec_broker_publish(topic.spec_bytes(), payload@, qos, retained, packet_id),
{
    let mut body: Vec<u8> = Vec::new();
    encode_string(&mut body, topic);
    match packet_id {
        Some(p) => {
            body.push((p / 256) as u8);
            body.push((p % 256) as u8);
        },
        None => {},
    }
    append_bytes(&mut body, payload);
    assert(body@ =~= spec_length_prefixed(topic.spec_bytes()) + match packet_id {
        Some(p) => spec_pid(p),
        None => Seq::empty(),
    } + payload@);
    let flags: u8 = 2 * qos.level() + if retained {
        1
    } else {
        0
    };
    packet_with_header(3, flags, body.as_slice())
}

/// The reply to a connection's first byte: CONNACK accepting the session
/// (`0x20 0x02 0x00 0x00`) when it starts a CONNECT, nothing otherwise (the
/// connection is then dropped).
pub fn connect_reply(first: u8) -> (r: Option<Vec<u8>>)
    ensures
        r is Some <==> first / 16 == 1,
        r matches Some(p) ==> p@ == seq![0x20u8, 0x02u8, 0x00u8, 0x00u8],
{
    if first / 16 == 1 {
        Some(vec![0x20u8, 0x02u8, 0x00u8, 0x00u8])
    } else {
        None
    }
}

impl Session {
    /// The identifier of the connection.
    pub fn id(&self) -> (r: u64)
        ensures
            r == self@.id,
    {
        self.id
    }

    pub closed spec fn wf(&self) -> bool {
        session_wf(self@)
    }

    /// A session's consistency is [`session_wf`] of its view.
    pub proof fn lemma_wf(&self)
        requires
            self.wf(),
        ensures
            session_wf(self@),
    {
    }
}

impl BrokerCore {
    pub closed spec fn wf(&self) -> bool {
        core_wf(self@)
    }

    /// The shared state's consistency is [`core_wf`] of its view.
    pub proof fn lemma_wf(&self)
        requires
            self.wf(),
        ensures
            core_wf(self@),
    {
    }

    /// A broker with no subscriptions and nothing retained; identifiers
    /// start at 1.
    pub fn new() -> (r: Self)
        ensures
            r.wf(),
            r@ == (CoreView { subs: Seq::empty(), retained: Seq::empty(), next_id: 1, next_session: 1 }),
    {
        let r = BrokerCore { subs: Vec::new(), retained: Vec::new(), next_id: 1, next_session: 1 };
        assert(r@.subs =~= Seq::<BrokerSubView>::empty());
        assert(r@.retained =~= Seq::<MessageView>::empty());
        r
    }

    /// Open a connection's session, under the next connection identifier.
    pub fn open_session(&mut self) -> (r: Session)
        requires
            old(self).wf(),
        ensures
            final(self).wf(),
            final(self)@ == (CoreView { next_session: wadd(old(self)@.next_session, 1), ..old(self)@ }),
            r.wf(),
            r@ == (SessionView { id: old(self)@.next_session, held: Seq::empty() }),
    {
        let id = self.next_session;
        self.next_session = self.next_session.wrapping_add(1);
        let r = Session { id, held: Vec::new() };
        assert(r@.held =~= Seq::<HeldView>::empty());
        r
    }
}


/// Read an incoming PUBLISH body (see [`spec_inbound_publish`]).
fn parse_inbound_publish(flags: u8, body: &[u8]) -> (r: Option<HeldMessage>)
    requires
        body@.len() <= MAX_REMAINING_LENGTH,
    ensures
        r matches Some(h) ==> spec_inbound_publish(flags, body@) == Some(h@) && fits(
            h@.topic,
            h@.payload,
        ),
        r is None ==> spec_inbound_publish(flags, body@) is None,
{
    if body.len() < 2 {
        return None;
    }
    let tlen = body[0] as usize * 256 + body[1] as usize;
    if body.len() < 2 + tlen {
        return None;
    }
    let tb = &body[2..2 + tlen];
    assert(tb@ =~= body@.subrange(2, 2 + tlen));
    let topic = match crate::text::str_from_utf8(tb) {
        Some(s) => s,
        None => {
            return None;
        },
    };
    proof {
        vstd::utf8::encode_utf8_decode_utf8(topic@);
    }
    let with_pid = (flags / 2) % 4 > 0 && body.len() >= 4 + tlen;
    let mut off = 2 + tlen;
    let mut packet_id: u16 = 0;
    if with_pid {
        packet_id = (body[off] as u16) * 256 + body[off + 1] as u16;
        off = off + 2;
    }
    let payload = copy_range(body, off, body.len());
    let h = HeldMessage { packet_id, topic: crate::text::owned(topic), payload };
    assert(h@.topic == decode_utf8(body@.subrange(2, 2 + tlen)));
    Some(h)
}

/// Read the packet identifier and first filter of a SUBSCRIBE or
/// UNSUBSCRIBE body (see [`spec_filter_request`]).
fn parse_filter_request(body: &[u8]) -> (r: Option<(u16, String)>)
    ensures
        r matches Some((pid, f)) ==> spec_filter_request(body@) == Some((pid, f@))
            && encode_utf8(f@).len() <= MAX_FIELD_LENGTH,
        r is None ==> spec_filter_request(body@) is None,
{
    if body.len() < 4 {
        return None;
    }
    let flen = body[2] as usize * 256 + body[3] as usize;
    if body.len() < 4 + flen {
        return None;
    }
    let fb = &body[4..4 + flen];
    assert(fb@ =~= body@.subrange(4, 4 + flen));
    let filter = match crate::text::str_from_utf8(fb) {
        Some(s) => s,
        None => {
            return None;
        },
    };
    proof {
        vstd::utf8::encode_utf8_decode_utf8(filter@);
    }
    let pid: u16 = (body[0] as u16) * 256 + body[1] as u16;
    Some((pid, crate::text::owned(filter)))
}

/// The QoS a SUBSCRIBE body requests (see [`requested_qos`]).
fn requested_qos_of(body: &[u8]) -> (r: u8)
    requires
        body@.len() >= 4,
    ensures
        r == requested_qos(body@),
{
    let flen = body[2] as usize * 256 + body[3] as usize;
    if body.len() > 4 + flen {
        body[4 + flen]
    } else {
        0
    }
}

/// The position of the held message with packet identifier `pid`, when
/// positions are found by a scan and identifiers are distinct.
proof fn lemma_find_held(held: Seq<HeldView>, pid: u16, found: Option<usize>)
    requires
        distinct_pids(held),
        found matches Some(i) ==> i < held.len() && held[i as int].packet_id == pid,
        found is None ==> forall|i: int| 0 <= i < held.len() ==> held[i].packet_id != pid,
    ensures
        spec_find_held(held, pid) == match found {
            Some(i) => Some(i as int),
            None => None::<int>,
        },
{
    if let Some(i) = found {
        assert(held[i as int].packet_id == pid);
    }
}

impl Session {
    /// The position of the held message with packet identifier `pid`.
    fn find_held(&self, pid: u16) -> (r: Option<usize>)
        requires
            self.wf(),
        ensures
            spec_find_held(self@.held, pid) == match r {
                Some(i) => Some(i as int),
                None => None::<int>,
            },
            r matches Some(i) ==> i < self@.held.len(),
    {
        let mut i: usize = 0;
        while i < self.held.len()
            invariant
                0 <= i <= self@.held.len(),
                self@.held.len() == self.held@.len(),
                distinct_pids(self@.held),
                forall|j: int| 0 <= j < i ==> self@.held[j].packet_id != pid,
            decreases self.held@.len() - i,
        {
            if self.held[i].packet_id == pid {
                proof {
                    lemma_find_held(self@.held, pid, Some(i));
                }
                return Some(i);
            }
            i = i + 1;
        }
        proof {
            lemma_find_held(self@.held, pid, None);
        }
        None
    }

    /// Hold `h` under its packet identifier, replacing what was held there.
    fn hold(&mut self, h: HeldMessage)
        requires
            old(self).wf(),
            fits(h@.topic, h@.payload),
        ensures
            final(self).wf(),
            final(self)@ == (SessionView { held: spec_hold(old(self)@.held, h@), ..old(self)@ }),
    {
        let ghost old_held = self@.held;
        let ghost hv = h@;
        let found = self.find_held(h.packet_id);
        match found {
            Some(i) => {
                self.held.set(i, h);
                assert(self@.held =~= old_held.update(i as int, hv));
            },
            None => {
                self.held.push(h);
                assert(self@.held =~= old_held.push(hv));
            },
        }
        proof {
            let n = self@.held;
            assert forall|a: int, b: int| 0 <= a < b < n.len() implies n[a].packet_id
                != n[b].packet_id by {
                if let Some(i) = found {
                    if a != i && b != i {
                        assert(old_held[a].packet_id != old_held[b].packet_id);
                    }
                } else {
                    if b < old_held.len() {
                        assert(old_held[a].packet_id != old_held[b].packet_id);
                    }
                }
            }
            assert forall|a: int| 0 <= a < n.len() implies fits(
                #[trigger] n[a].topic,
                n[a].payload,
            ) by {
                if n[a] != hv {
                    assert(n[a] == old_held[a]);
                }
            }
        }
    }

    /// Release the message held under `pid`, if there is one.
    fn release(&mut self, pid: u16) -> (r: Option<HeldMessage>)
        requires
            old(self).wf(),
        ensures
            final(self).wf(),
            match spec_find_held(old(self)@.held, pid) {
                Some(i) => (r matches Some(h) && h@ == old(self)@.held[i] && fits(
                    h@.topic,
                    h@.payload,
                )) && final(self)@ == (SessionView {
                    held: old(self)@.held.remove(i),
                    ..old(self)@
                }),
                None => r is None && final(self)@ == old(self)@,
            },
    {
        let ghost old_held = self@.held;
        match self.find_held(pid) {
            Some(i) => {
                let h = self.held.remove(i);
                proof {
                    assert(self@.held =~= old_held.remove(i as int));
                    let n = self@.held;
                    assert forall|a: int, b: int| 0 <= a < b < n.len() implies n[a].packet_id
                        != n[b].packet_id by {
                        let a2 = if a < i { a } else { a + 1 };
                        let b2 = if b < i { b } else { b + 1 };
                        assert(n[a] == old_held[a2] && n[b] == old_held[b2]);
                    }
                    assert forall|a: int| 0 <= a < n.len() implies fits(
                        #[trigger] n[a].topic,
                        n[a].payload,
                    ) by {
                        let a2 = if a < i { a } else { a + 1 };
                        assert(n[a] == old_held[a2]);
                    }
                    assert(fits(old_held[i as int].topic, old_held[i as int].payload));
                }
                Some(h)
            },
            None => None,
        }
    }
}

impl BrokerCore {
    /// The position of the retained message for `topic`.
    fn find_retained(&self, topic: &str) -> (r: Option<usize>)
        ensures
            r matches Some(i) ==> i < self@.retained.len() && self@.retained[i as int].topic
                == topic@,
            r is None ==> forall|i: int|
                0 <= i < self@.retained.len() ==> self@.retained[i].topic != topic@,
    {
        let mut i: usize = 0;
        while i < self.retained.len()
            invariant
                0 <= i <= self@.retained.len(),
                self@.retained.len() == self.retained@.len(),
                forall|j: int| 0 <= j < i ==> self@.retained[j].topic != topic@,
            decreases self.retained@.len() - i,
        {
            if crate::text::str_eq(self.retained[i].topic.as_str(), topic) {
                return Some(i);
            }
            i = i + 1;
        }
        None
    }

    /// Retain `m` for its topic, replacing what was retained there.
    fn retain(&mut self, m: Message)
        requires
            old(self).wf(),
            fits(m@.topic, m@.payload),
            m@.retained,
        ensures
            final(self).wf(),
            final(self)@ == (CoreView { retained: spec_retain(old(self)@.retained, m@), ..old(self)@ }),
    {
        let ghost old_r = self@.retained;
        let ghost mv = m@;
        let found = self.find_retained(m.topic.as_str());
        match found {
            Some(i) => {
                self.retained.set(i, m);
            },
            None => {
                self.retained.push(m);
            },
        }
        proof {
            lemma_retain(old_r, mv, found);
            assert(views(self.retained@) =~= spec_retain(old_r, mv));
            let n = self@.retained;
            assert forall|a: int| 0 <= a < n.len() implies fits(
                #[trigger] n[a].topic,
                n[a].payload,
            ) && n[a].retained by {
                if n[a] != mv {
                    assert(n[a] == old_r[a]);
                }
            }
        }
    }

    /// Append a copy of the QoS 0 PUBLISH of `payload` on `topic` for the
    /// connection of every subscription whose filter matches `topic`.
    fn deliver(&self, topic: &str, payload: &[u8], out: &mut Vec<Outbound>)
        requires
            fits(topic@, payload@),
        ensures
            outs(final(out)@) == outs(old(out)@) + spec_deliveries(
                self@.subs,
                topic@,
                relay_packet(topic@, payload@),
            ),
    {
        let pkt = build_publish_pkt(topic, payload, QoS::AtMostOnce, false, None);
        let ghost subs = self@.subs;
        let mut i: usize = 0;
        while i < self.subs.len()
            invariant
                0 <= i <= self.subs@.len(),
                subs == self@.subs,
                subs.len() == self.subs@.len(),
                pkt@ == relay_packet(topic@, payload@),
                outs(out@) == outs(old(out)@) + spec_deliveries(
                    subs.subrange(0, i as int),
                    topic@,
                    pkt@,
                ),
            decreases self.subs@.len() - i,
        {
            let ghost prev = out@;
            assert(subs.subrange(0, i + 1).drop_last() =~= subs.subrange(0, i as int));
            assert(subs[i as int] == self.subs@[i as int]@);
            if match_topic(self.subs[i].filter.as_str(), topic) {
                let o = Outbound { session: self.subs[i].session, packet: crate::message::copy_bytes(&pkt) };
                out.push(o);
                assert(outs(out@) =~= outs(prev).push(o@));
            }
            i = i + 1;
        }
        assert(subs.subrange(0, subs.len() as int) =~= subs);
    }

    /// Append, for the connection `session`, the retained PUBLISH of every
    /// retained message whose topic `filter` matches.
    fn replay(&self, filter: &str, session: u64, out: &mut Vec<Outbound>)
        requires
            self.wf(),
        ensures
            outs(final(out)@) == outs(old(out)@) + spec_replay(self@.retained, filter@, session),
    {
        let ghost r = self@.retained;
        let mut i: usize = 0;
        while i < self.retained.len()
            invariant
                0 <= i <= self.retained@.len(),
                r == self@.retained,
                r.len() == self.retained@.len(),
                core_wf(self@),
                outs(out@) == outs(old(out)@) + spec_replay(r.subrange(0, i as int), filter@, session),
            decreases self.retained@.len() - i,
        {
            let ghost prev = out@;
            assert(r.subrange(0, i + 1).drop_last() =~= r.subrange(0, i as int));
            assert(r[i as int] == self.retained@[i as int]@);
            let m = &self.retained[i];
            if match_topic(filter, m.topic.as_str()) {
                assert(fits(r[i as int].topic, r[i as int].payload));
                let pkt = build_publish_pkt(
                    m.topic.as_str(),
                    m.payload.as_slice(),
                    QoS::AtMostOnce,
                    true,
                    None,
                );
                let o = Outbound { session, packet: pkt };
                out.push(o);
                assert(outs(out@) =~= outs(prev).push(o@));
            }
            i = i + 1;
        }
        assert(r.subrange(0, r.len() as int) =~= r);
    }
}


impl BrokerCore {
    /// The subscriptions kept when those matching `drop` go.
    fn subs_without(&self, filter: &str, session: u64, by_filter: bool) -> (r: Vec<BrokerSub>)
        ensures
            r@.map_values(|s: BrokerSub| s@) == if by_filter {
                spec_drop_filter(self@.subs, filter@)
            } else {
                spec_drop_session(self@.subs, session)
            },
    {
        let ghost subs = self@.subs;
        let mut kept: Vec<BrokerSub> = Vec::new();
        let mut i: usize = 0;
        while i < self.subs.len()
            invariant
                0 <= i <= self.subs@.len(),
                subs == self@.subs,
                subs.len() == self.subs@.len(),
                kept@.map_values(|s: BrokerSub| s@) == if by_filter {
                    spec_drop_filter(subs.subrange(0, i as int), filter@)
                } else {
                    spec_drop_session(subs.subrange(0, i as int), session)
                },
            decreases self.subs@.len() - i,
        {
            let ghost prev = kept@;
            assert(subs.subrange(0, i + 1).drop_last() =~= subs.subrange(0, i as int));
            assert(subs[i as int] == self.subs@[i as int]@);
            let s = &self.subs[i];
            let goes = if by_filter {
                crate::text::str_eq(s.filter.as_str(), filter)
            } else {
                s.session == session
            };
            if !goes {
                let c = BrokerSub { id: s.id, filter: crate::text::owned(s.filter.as_str()), session: s.session };
                kept.push(c);
                assert(kept@.map_values(|s: BrokerSub| s@) =~= prev.map_values(|s: BrokerSub| s@).push(c@));
            }
            i = i + 1;
        }
        assert(subs.subrange(0, subs.len() as int) =~= subs);
        kept
    }

    /// A PUBLISH from `session` (see [`spec_on_publish`]).
    fn on_publish(&mut self, session: &mut Session, flags: u8, body: &[u8]) -> (out: Vec<Outbound>)
        requires
            old(self).wf(),
            old(session).wf(),
            body@.len() <= MAX_REMAINING_LENGTH,
        ensures
            final(self).wf(),
            final(session).wf(),
            spec_on_publish(old(self)@, old(session)@, flags, body@) == (Step {
                core: final(self)@,
                session: final(session)@,
                out: outs(out@),
                disconnect: false,
            }),
    {
        let mut out: Vec<Outbound> = Vec::new();
        let h = match parse_inbound_publish(flags, body) {
            Some(h) => h,
            None => {
                assert(outs(out@) =~= Seq::empty());
                return out;
            },
        };
        let bits: u8 = (flags / 2) % 4;
        let qos = match QoS::from_level(bits) {
            Some(q) => q,
            None => QoS::AtMostOnce,
        };
        assert(qos == qos_of_bits(bits));
        if flags % 2 == 1 {
            let m = Message::plain(
                crate::text::owned(h.topic.as_str()),
                crate::message::copy_bytes(&h.payload),
                qos,
                true,
                0,
            );
            self.retain(m);
        }
        if bits == 2 {
            let pid = h.packet_id;
            session.hold(h);
            let o = Outbound { session: session.id, packet: crate::v3::packet::build_pubrec(pid) };
            out.push(o);
            assert(outs(out@) =~= seq![o@]);
            return out;
        }
        self.deliver(h.topic.as_str(), h.payload.as_slice(), &mut out);
        assert(outs(out@) =~= Seq::empty() + outs(out@));
        if bits == 1 {
            let ghost before = out@;
            let o = Outbound {
                session: session.id,
                packet: crate::v3::packet::build_puback(h.packet_id),
            };
            out.push(o);
            assert(outs(out@) =~= outs(before).push(o@));
        }
        out
    }

    /// A PUBREL from `session` (see [`spec_on_pubrel`]).
    fn on_pubrel(&mut self, session: &mut Session, body: &[u8]) -> (out: Vec<Outbound>)
        requires
            old(self).wf(),
            old(session).wf(),
        ensures
            final(self).wf(),
            final(session).wf(),
            spec_on_pubrel(old(self)@, old(session)@, body@) == (Step {
                core: final(self)@,
                session: final(session)@,
                out: outs(out@),
                disconnect: false,
            }),
    {
        let mut out: Vec<Outbound> = Vec::new();
        if body.len() < 2 {
            assert(outs(out@) =~= Seq::empty());
            return out;
        }
        let pid: u16 = (body[0] as u16) * 256 + body[1] as u16;
        match session.release(pid) {
            Some(h) => {
                self.deliver(h.topic.as_str(), h.payload.as_slice(), &mut out);
                assert(outs(out@) =~= Seq::empty() + outs(out@));
            },
            None => {
                assert(outs(out@) =~= Seq::empty());
            },
        }
        let ghost before = out@;
        let o = Outbound { session: session.id, packet: crate::v3::packet::build_pubcomp(pid) };
        out.push(o);
        assert(outs(out@) =~= outs(before).push(o@));
        out
    }

    /// A SUBSCRIBE from `session` (see [`spec_on_subscribe`]).
    fn on_subscribe(&mut self, session: &Session, body: &[u8]) -> (out: Vec<Outbound>)
        requires
            old(self).wf(),
        ensures
            final(self).wf(),
            spec_on_subscribe(old(self)@, session@, body@) == (Step {
                core: final(self)@,
                session: session@,
                out: outs(out@),
                disconnect: false,
            }),
    {
        let mut out: Vec<Outbound> = Vec::new();
        let (pid, filter) = match parse_filter_request(body) {
            Some(p) => p,
            None => {
                assert(outs(out@) =~= Seq::empty());
                return out;
            },
        };
        let rq = requested_qos_of(body);
        self.replay(filter.as_str(), session.id, &mut out);
        assert(outs(out@) =~= Seq::empty() + outs(out@));
        let ghost old_subs = self@.subs;
        let sub = BrokerSub { id: self.next_id, filter, session: session.id };
        let ghost sv = sub@;
        self.subs.push(sub);
        assert(self@.subs =~= old_subs.push(sv));
        self.next_id = self.next_id.wrapping_add(1);
        let mut ack: Vec<u8> = Vec::new();
        ack.push((pid / 256) as u8);
        ack.push((pid % 256) as u8);
        ack.push(rq);
        assert(ack@ =~= spec_pid(pid).push(rq));
        let ghost before = out@;
        let o = Outbound { session: session.id, packet: packet_with_header(9, 0, ack.as_slice()) };
        out.push(o);
        assert(outs(out@) =~= outs(before).push(o@));
        out
    }

    /// An UNSUBSCRIBE from `session` (see [`spec_on_unsubscribe`]).
    fn on_unsubscribe(&mut self, session: &Session, body: &[u8]) -> (out: Vec<Outbound>)
        requires
            old(self).wf(),
        ensures
            final(self).wf(),
            spec_on_unsubscribe(old(self)@, session@, body@) == (Step {
                core: final(self)@,
                session: session@,
                out: outs(out@),
                disconnect: false,
            }),
    {
        let mut out: Vec<Outbound> = Vec::new();
        let (pid, filter) = match parse_filter_request(body) {
            Some(p) => p,
            None => {
                assert(outs(out@) =~= Seq::empty());
                return out;
            },
        };
        self.subs = self.subs_without(filter.as_str(), 0, true);
        let mut ack: Vec<u8> = Vec::new();
        ack.push((pid / 256) as u8);
        ack.push((pid % 256) as u8);
        assert(ack@ =~= spec_pid(pid));
        let o = Outbound { session: session.id, packet: packet_with_header(11, 0, ack.as_slice()) };
        out.push(o);
        assert(outs(out@) =~= seq![o@]);
        out
    }

    /// Handle the packet with first header byte `first` and body `body`
    /// that the connection `session` sent (see [`spec_handle`]).
    pub fn handle_packet(&mut self, session: &mut Session, first: u8, body: &[u8]) -> (r: Reaction)
        requires
            old(self).wf(),
            old(session).wf(),
            body@.len() <= MAX_REMAINING_LENGTH,
        ensures
            final(self).wf(),
            final(session).wf(),
            spec_handle(old(self)@, old(session)@, first, body@) == (Step {
                core: final(self)@,
                session: final(session)@,
                out: outs(r.out@),
                disconnect: r.disconnect,
            }),
    {
        let ptype = first / 16;
        if ptype == 3 {
            let out = self.on_publish(session, first % 16, body);
            Reaction { out, disconnect: false }
        } else if ptype == 6 {
            let out = self.on_pubrel(session, body);
            Reaction { out, disconnect: false }
        } else if ptype == 8 {
            let out = self.on_subscribe(session, body);
            Reaction { out, disconnect: false }
        } else if ptype == 10 {
            let out = self.on_unsubscribe(session, body);
            Reaction { out, disconnect: false }
        } else if ptype == 12 {
            let o = Outbound { session: session.id, packet: vec![0xD0u8, 0x00u8] };
            assert(spec_packet(13, 0, Seq::empty()) =~= seq![0xD0u8, 0x00u8]);
            let out = vec![o];
            assert(outs(out@) =~= seq![o@]);
            Reaction { out, disconnect: false }
        } else if ptype == 14 {
            let out: Vec<Outbound> = Vec::new();
            assert(outs(out@) =~= Seq::empty());
            Reaction { out, disconnect: true }
        } else {
            let out: Vec<Outbound> = Vec::new();
            assert(outs(out@) =~= Seq::empty());
            Reaction { out, disconnect: false }
        }
    }

    /// End a connection: every subscription it made goes.
    pub fn close_session(&mut self, session: Session)
        requires
            old(self).wf(),
        ensures
            final(self).wf(),
            final(self)@ == (CoreView { subs: spec_drop_session(old(self)@.subs, session@.id), ..old(self)@ }),
    {
        self.subs = self.subs_without("", session.id, false);
    }
}


/// Holding `h` keeps packet identifiers distinct and puts `h` where its
/// identifier is found.
proof fn lemma_hold(held: Seq<HeldView>, h: HeldView)
    requires
        distinct_pids(held),
    ensures
        distinct_pids(spec_hold(held, h)),
        spec_find_held(spec_hold(held, h), h.packet_id) matches Some(j) && spec_hold(held, h)[j]
            == h,
{
    let n = spec_hold(held, h);
    match spec_find_held(held, h.packet_id) {
        Some(i) => {
            assert forall|a: int, b: int| 0 <= a < b < n.len() implies n[a].packet_id
                != n[b].packet_id by {
                if a != i && b != i {
                    assert(held[a].packet_id != held[b].packet_id);
                } else if a == i {
                    assert(held[a].packet_id != held[b].packet_id);
                } else {
                    assert(held[a].packet_id != held[b].packet_id);
                }
            }
            assert(n[i].packet_id == h.packet_id);
        },
        None => {
            assert forall|a: int, b: int| 0 <= a < b < n.len() implies n[a].packet_id
                != n[b].packet_id by {
                if b < held.len() {
                    assert(held[a].packet_id != held[b].packet_id);
                }
            }
            assert(n[held.len() as int].packet_id == h.packet_id);
        },
    }
    let j = choose|j: int| 0 <= j < n.len() && n[j].packet_id == h.packet_id;
    if n[j] != h {
        match spec_find_held(held, h.packet_id) {
            Some(i) => {
                assert(j != i);
                assert(n[j].packet_id != n[i].packet_id);
            },
            None => {
                assert(j < held.len());
                assert(held[j].packet_id == h.packet_id);
            },
        }
    }
}

/// Removing the message found under `pid` leaves none under it.
proof fn lemma_release(held: Seq<HeldView>, pid: u16, i: int)
    requires
        distinct_pids(held),
        0 <= i < held.len(),
        held[i].packet_id == pid,
    ensures
        spec_find_held(held.remove(i), pid) is None,
        distinct_pids(held.remove(i)),
{
    let n = held.remove(i);
    assert forall|a: int| 0 <= a < n.len() implies n[a].packet_id != pid by {
        let a2 = if a < i { a } else { a + 1 };
        assert(n[a] == held[a2]);
        assert(held[a2].packet_id != held[i].packet_id);
    }
    assert forall|a: int, b: int| 0 <= a < b < n.len() implies n[a].packet_id
        != n[b].packet_id by {
        let a2 = if a < i { a } else { a + 1 };
        let b2 = if b < i { b } else { b + 1 };
        assert(n[a] == held[a2] && n[b] == held[b2]);
    }
}

/// A QoS 2 PUBLISH is delivered exactly once (§4.3.3): publishing it only
/// holds it and answers PUBREC; the PUBREL for its packet identifier
/// delivers it to every matching subscription, then PUBCOMP; a repeated
/// PUBREL delivers nothing and is answered with PUBCOMP alone.
pub proof fn lemma_qos2_delivered_once(c: CoreView, s: SessionView, flags: u8, body: Seq<u8>)
    requires
        session_wf(s),
        (flags / 2) % 4 == 2,
        spec_inbound_publish(flags, body) is Some,
    ensures
        ({
            let h = spec_inbound_publish(flags, body).unwrap();
            let rel = spec_pid(h.packet_id);
            let comp = (s.id, spec_packet(7, 0, rel));
            let p = spec_on_publish(c, s, flags, body);
            let r1 = spec_on_pubrel(p.core, p.session, rel);
            let r2 = spec_on_pubrel(r1.core, r1.session, rel);
            &&& p.out == seq![(s.id, spec_packet(5, 0, rel))]
            &&& r1.out == spec_deliveries(p.core.subs, h.topic, relay_packet(h.topic, h.payload)).push(
                comp,
            )
            &&& r2.out == seq![comp]
        }),
{
    let h = spec_inbound_publish(flags, body).unwrap();
    let rel = spec_pid(h.packet_id);
    lemma_hold(s.held, h);
    let held1 = spec_hold(s.held, h);
    let pid = h.packet_id;
    assert((pid / 256) * 256 + pid % 256 == pid) by (nonlinear_arith);
    assert(rel[0] == pid / 256 && rel[1] == pid % 256);
    assert(be16(rel[0], rel[1]) == pid as nat);
    let j = spec_find_held(held1, h.packet_id).unwrap();
    lemma_release(held1, h.packet_id, j);
}

/// After UNSUBSCRIBE, no subscription to its filter is left, of any
/// connection.
pub proof fn lemma_unsubscribed_filter_gone(subs: Seq<BrokerSubView>, filter: Seq<char>)
    ensures
        forall|i: int|
            0 <= i < spec_drop_filter(subs, filter).len() ==> (#[trigger] spec_drop_filter(
                subs,
                filter,
            )[i]).filter != filter,
    decreases subs.len(),
{
    if subs.len() > 0 {
        lemma_unsubscribed_filter_gone(subs.drop_last(), filter);
        let p = spec_drop_filter(subs.drop_last(), filter);
        let r = spec_drop_filter(subs, filter);
        assert forall|i: int| 0 <= i < r.len() implies r[i].filter != filter by {
            if i < p.len() {
                assert(r[i] == p[i]);
            }
        }
    }
}

/// Once a connection ends, nothing published afterwards is routed to it.
pub proof fn lemma_closed_session_gets_nothing(
    subs: Seq<BrokerSubView>,
    session: u64,
    topic: Seq<char>,
    pkt: Seq<u8>,
)
    ensures
        forall|k: int|
            0 <= k < spec_deliveries(spec_drop_session(subs, session), topic, pkt).len() ==> (
            #[trigger] spec_deliveries(spec_drop_session(subs, session), topic, pkt)[k]).0
                != session,
{
    lemma_drop_session_gone(subs, session);
    lemma_deliveries_from(spec_drop_session(subs, session), session, topic, pkt);
}

/// No subscription of `session` is left once its subscriptions are dropped.
proof fn lemma_drop_session_gone(subs: Seq<BrokerSubView>, session: u64)
    ensures
        forall|i: int|
            0 <= i < spec_drop_session(subs, session).len() ==> (#[trigger] spec_drop_session(
                subs,
                session,
            )[i]).session != session,
    decreases subs.len(),
{
    if subs.len() > 0 {
        lemma_drop_session_gone(subs.drop_last(), session);
        let p = spec_drop_session(subs.drop_last(), session);
        let r = spec_drop_session(subs, session);
        assert forall|i: int| 0 <= i < r.len() implies r[i].session != session by {
            if i < p.len() {
                assert(r[i] == p[i]);
            }
        }
    }
}

/// Deliveries go only to the connections of the subscriptions.
proof fn lemma_deliveries_from(subs: Seq<BrokerSubView>, session: u64, topic: Seq<char>, pkt: Seq<u8>)
    requires
        forall|i: int| 0 <= i < subs.len() ==> (#[trigger] subs[i]).session != session,
    ensures
        forall|k: int|
            0 <= k < spec_deliveries(subs, topic, pkt).len() ==> (#[trigger] spec_deliveries(
                subs,
                topic,
                pkt,
            )[k]).0 != session,
    decreases subs.len(),
{
    if subs.len() > 0 {
        let p = subs.drop_last();
        assert forall|i: int| 0 <= i < p.len() implies (#[trigger] p[i]).session != session by {
            assert(p[i] == subs[i]);
        }
        lemma_deliveries_from(p, session, topic, pkt);
        assert(subs.last() == subs[subs.len() - 1]);
        let d = spec_deliveries(p, topic, pkt);
        let r = spec_deliveries(subs, topic, pkt);
        assert forall|k: int| 0 <= k < r.len() implies r[k].0 != session by {
            if k < d.len() {
                assert(r[k] == d[k]);
            }
        }
    }
}

/// A retained message is among what replaying the retained list gives a
/// filter that matches its topic.
proof fn lemma_replay_contains(retained: Seq<MessageView>, filter: Seq<char>, session: u64, i: int)
    requires
        0 <= i < retained.len(),
        matches(filter, retained[i].topic),
    ensures
        spec_replay(retained, filter, session).contains((session, replay_packet(retained[i]))),
    decreases retained.len(),
{
    let p = spec_replay(retained.drop_last(), filter, session);
    if i == retained.len() - 1 {
        assert(spec_replay(retained, filter, session) == p.push(
            (session, replay_packet(retained.last())),
        ));
        assert(spec_replay(retained, filter, session)[p.len() as int] == (
            session,
            replay_packet(retained[i]),
        ));
    } else {
        lemma_replay_contains(retained.drop_last(), filter, session, i);
        let k = choose|k: int| 0 <= k < p.len() && p[k] == (session, replay_packet(retained[i]));
        let full = spec_replay(retained, filter, session);
        assert(full[k] == p[k]);
    }
}

/// A message published with the retain flag is handed, as a retained QoS
/// 0 PUBLISH, to any later SUBSCRIBE whose filter matches its topic, from
/// any connection.
pub proof fn lemma_retained_replayed(
    c: CoreView,
    s: SessionView,
    flags: u8,
    body: Seq<u8>,
    s2: SessionView,
    sub_body: Seq<u8>,
)
    requires
        core_wf(c),
        flags % 2 == 1,
        spec_inbound_publish(flags, body) is Some,
        spec_filter_request(sub_body) matches Some((pid, f)) && matches(
            f,
            spec_inbound_publish(flags, body).unwrap().topic,
        ),
    ensures
        ({
            let h = spec_inbound_publish(flags, body).unwrap();
            let m = plain_message_view(
                h.topic,
                h.payload,
                qos_of_bits(((flags / 2) % 4) as u8),
                true,
                0,
            );
            let p = spec_on_publish(c, s, flags, body);
            spec_on_subscribe(p.core, s2, sub_body).out.contains((s2.id, replay_packet(m)))
        }),
{
    let h = spec_inbound_publish(flags, body).unwrap();
    let m = plain_message_view(h.topic, h.payload, qos_of_bits(((flags / 2) % 4) as u8), true, 0);
    let r = c.retained;
    let (pid, f) = spec_filter_request(sub_body).unwrap();
    let i = if exists|i: int| 0 <= i < r.len() && r[i].topic == m.topic {
        choose|i: int| 0 <= i < r.len() && r[i].topic == m.topic
    } else {
        r.len() as int
    };
    let r1 = spec_retain(r, m);
    assert(r1[i] == m);
    lemma_replay_contains(r1, f, s2.id, i);
    let rp = spec_replay(r1, f, s2.id);
    let k = choose|k: int| 0 <= k < rp.len() && rp[k] == (s2.id, replay_packet(m));
    let out = spec_on_subscribe(spec_on_publish(c, s, flags, body).core, s2, sub_body).out;
    assert(out[k] == rp[k]);
}


/// A subscriber receives what is published on a topic its filter matches:
/// after a SUBSCRIBE from `s1`, a QoS 0 or QoS 1 PUBLISH from any
/// connection is sent on to `s1`, framed at QoS 0.
pub proof fn lemma_subscriber_receives_publish(
    c: CoreView,
    s1: SessionView,
    sub_body: Seq<u8>,
    s2: SessionView,
    flags: u8,
    body: Seq<u8>,
)
    requires
        spec_filter_request(sub_body) is Some,
        (flags / 2) % 4 < 2,
        spec_inbound_publish(flags, body) is Some,
        matches(
            spec_filter_request(sub_body).unwrap().1,
            spec_inbound_publish(flags, body).unwrap().topic,
        ),
    ensures
        ({
            let h = spec_inbound_publish(flags, body).unwrap();
            let c1 = spec_on_subscribe(c, s1, sub_body).core;
            spec_on_publish(c1, s2, flags, body).out.contains(
                (s1.id, relay_packet(h.topic, h.payload)),
            )
        }),
{
    let h = spec_inbound_publish(flags, body).unwrap();
    let c1 = spec_on_subscribe(c, s1, sub_body).core;
    let pkt = relay_packet(h.topic, h.payload);
    let subs = c1.subs;
    assert(subs.drop_last() =~= c.subs);
    let d = spec_deliveries(subs, h.topic, pkt);
    assert(d == spec_deliveries(c.subs, h.topic, pkt).push((s1.id, pkt)));
    let out = spec_on_publish(c1, s2, flags, body).out;
    let k = d.len() - 1;
    assert(out[k] == (s1.id, pkt));
}

/// The `k`-th delivery of `pkt` goes to the connection of a subscription
/// whose filter matches `topic`.
pub open spec fn delivered_to_match(
    subs: Seq<BrokerSubView>,
    topic: Seq<char>,
    pkt: Seq<u8>,
    k: int,
) -> bool {
    exists|j: int|
        0 <= j < subs.len() && matches(#[trigger] subs[j].filter, topic) && spec_deliveries(
            subs,
            topic,
            pkt,
        )[k] == (subs[j].session, pkt)
}

/// The connection of the subscription at `j` is among the deliveries.
pub open spec fn delivered(subs: Seq<BrokerSubView>, topic: Seq<char>, pkt: Seq<u8>, j: int) -> bool {
    exists|k: int|
        0 <= k < spec_deliveries(subs, topic, pkt).len() && #[trigger] spec_deliveries(
            subs,
            topic,
            pkt,
        )[k] == (subs[j].session, pkt)
}

/// Every delivery goes to a subscription whose filter matches.
proof fn lemma_deliveries_sound(subs: Seq<BrokerSubView>, topic: Seq<char>, pkt: Seq<u8>)
    ensures
        forall|k: int|
            0 <= k < spec_deliveries(subs, topic, pkt).len() ==> #[trigger] delivered_to_match(
                subs,
                topic,
                pkt,
                k,
            ),
    decreases subs.len(),
{
    if subs.len() > 0 {
        let p = subs.drop_last();
        let n = subs.len() - 1;
        lemma_deliveries_sound(p, topic, pkt);
        let dp = spec_deliveries(p, topic, pkt);
        let d = spec_deliveries(subs, topic, pkt);
        assert(subs.last() == subs[n]);
        assert forall|k: int| 0 <= k < d.len() implies #[trigger] delivered_to_match(
            subs,
            topic,
            pkt,
            k,
        ) by {
            if k < dp.len() {
                assert(d[k] == dp[k]);
                assert(delivered_to_match(p, topic, pkt, k));
                let j = choose|j: int|
                    0 <= j < p.len() && matches(#[trigger] p[j].filter, topic) && dp[k] == (
                        p[j].session,
                        pkt,
                    );
                assert(p[j] == subs[j]);
                assert(matches(subs[j].filter, topic));
            } else {
                assert(matches(subs[n].filter, topic));
                assert(d[k] == (subs[n].session, pkt));
            }
        }
    }
}

/// Every subscription whose filter matches is delivered to.
proof fn lemma_deliveries_complete(subs: Seq<BrokerSubView>, topic: Seq<char>, pkt: Seq<u8>)
    ensures
        forall|j: int|
            0 <= j < subs.len() && matches(subs[j].filter, topic) ==> #[trigger] delivered(
                subs,
                topic,
                pkt,
                j,
            ),
    decreases subs.len(),
{
    if subs.len() > 0 {
        let p = subs.drop_last();
        let n = subs.len() - 1;
        lemma_deliveries_complete(p, topic, pkt);
        let dp = spec_deliveries(p, topic, pkt);
        let d = spec_deliveries(subs, topic, pkt);
        assert(subs.last() == subs[n]);
        assert forall|j: int| 0 <= j < subs.len() && matches(subs[j].filter, topic) implies #[trigger] delivered(
            subs,
            topic,
            pkt,
            j,
        ) by {
            if j < n {
                assert(p[j] == subs[j]);
                assert(delivered(p, topic, pkt, j));
                let k = choose|k: int| 0 <= k < dp.len() && #[trigger] dp[k] == (p[j].session, pkt);
                assert(d[k] == dp[k]);
            } else {
                assert(d[dp.len() as int] == (subs[n].session, pkt));
            }
        }
    }
}

/// Publish routing is exact: every delivery goes, with the publish's
/// packet, to the connection of a subscription whose filter matches the
/// topic, and every subscription whose filter matches the topic has its
/// connection sent the packet. So a publish that no filter matches is sent
/// to nobody.
pub proof fn lemma_deliveries_go_to_matching_subscriptions(
    subs: Seq<BrokerSubView>,
    topic: Seq<char>,
    pkt: Seq<u8>,
)
    ensures
        forall|k: int|
            0 <= k < spec_deliveries(subs, topic, pkt).len() ==> #[trigger] delivered_to_match(
                subs,
                topic,
                pkt,
                k,
            ),
        forall|j: int|
            0 <= j < subs.len() && matches(subs[j].filter, topic) ==> #[trigger] delivered(
                subs,
                topic,
                pkt,
                j,
            ),
        (forall|j: int| 0 <= j < subs.len() ==> !matches(#[trigger] subs[j].filter, topic))
            ==> spec_deliveries(subs, topic, pkt).len() == 0,
{
    lemma_deliveries_sound(subs, topic, pkt);
    lemma_deliveries_complete(subs, topic, pkt);
    let d = spec_deliveries(subs, topic, pkt);
    if d.len() > 0 {
        assert(delivered_to_match(subs, topic, pkt, 0));
    }
}

/// The `k`-th replayed packet goes to `session` and carries a retained
/// message whose topic `filter` matches.
pub open spec fn replayed_from_match(
    retained: Seq<MessageView>,
    filter: Seq<char>,
    session: u64,
    k: int,
) -> bool {
    exists|j: int|
        0 <= j < retained.len() && matches(filter, #[trigger] retained[j].topic) && spec_replay(
            retained,
            filter,
            session,
        )[k] == (session, replay_packet(retained[j]))
}

/// The retained message at `j` is among the replayed packets.
pub open spec fn replayed(retained: Seq<MessageView>, filter: Seq<char>, session: u64, j: int) -> bool {
    exists|k: int|
        0 <= k < spec_replay(retained, filter, session).len() && #[trigger] spec_replay(
            retained,
            filter,
            session,
        )[k] == (session, replay_packet(retained[j]))
}

/// Every replayed packet carries a retained message the filter matches.
proof fn lemma_replay_sound(retained: Seq<MessageView>, filter: Seq<char>, session: u64)
    ensures
        forall|k: int|
            0 <= k < spec_replay(retained, filter, session).len() ==> #[trigger] replayed_from_match(
                retained,
                filter,
                session,
                k,
            ),
    decreases retained.len(),
{
    if retained.len() > 0 {
        let p = retained.drop_last();
        let n = retained.len() - 1;
        lemma_replay_sound(p, filter, session);
        let dp = spec_replay(p, filter, session);
        let d = spec_replay(retained, filter, session);
        assert(retained.last() == retained[n]);
        assert forall|k: int| 0 <= k < d.len() implies #[trigger] replayed_from_match(
            retained,
            filter,
            session,
            k,
        ) by {
            if k < dp.len() {
                assert(d[k] == dp[k]);
                assert(replayed_from_match(p, filter, session, k));
                let j = choose|j: int|
                    0 <= j < p.len() && matches(filter, #[trigger] p[j].topic) && dp[k] == (
                        session,
                        replay_packet(p[j]),
                    );
                assert(p[j] == retained[j]);
                assert(matches(filter, retained[j].topic));
            } else {
                assert(matches(filter, retained[n].topic));
                assert(d[k] == (session, replay_packet(retained[n])));
            }
        }
    }
}

/// Every retained message the filter matches is replayed.
proof fn lemma_replay_complete(retained: Seq<MessageView>, filter: Seq<char>, session: u64)
    ensures
        forall|j: int|
            0 <= j < retained.len() && matches(filter, retained[j].topic) ==> #[trigger] replayed(
                retained,
                filter,
                session,
                j,
            ),
    decreases retained.len(),
{
    if retained.len() > 0 {
        let p = retained.drop_last();
        let n = retained.len() - 1;
        lemma_replay_complete(p, filter, session);
        let dp = spec_replay(p, filter, session);
        let d = spec_replay(retained, filter, session);
        assert(retained.last() == retained[n]);
        assert forall|j: int| 0 <= j < retained.len() && matches(filter, retained[j].topic) implies #[trigger] replayed(
            retained,
            filter,
            session,
            j,
        ) by {
            if j < n {
                assert(p[j] == retained[j]);
                assert(replayed(p, filter, session, j));
                let k = choose|k: int|
                    0 <= k < dp.len() && #[trigger] dp[k] == (session, replay_packet(p[j]));
                assert(d[k] == dp[k]);
            } else {
                assert(d[dp.len() as int] == (session, replay_packet(retained[n])));
            }
        }
    }
}

/// Retained replay on SUBSCRIBE is exact: every replayed packet goes to the
/// subscribing connection and carries a retained message whose topic the
/// new filter matches, and every such retained message is replayed. So a
/// filter that matches no retained topic is answered with the SUBACK
/// alone.
pub proof fn lemma_replay_sends_only_matching_retained(
    retained: Seq<MessageView>,
    filter: Seq<char>,
    session: u64,
)
    ensures
        forall|k: int|
            0 <= k < spec_replay(retained, filter, session).len() ==> #[trigger] replayed_from_match(
                retained,
                filter,
                session,
                k,
            ),
        forall|j: int|
            0 <= j < retained.len() && matches(filter, retained[j].topic) ==> #[trigger] replayed(
                retained,
                filter,
                session,
                j,
            ),
        (forall|j: int| 0 <= j < retained.len() ==> !matches(filter, #[trigger] retained[j].topic))
            ==> spec_replay(retained, filter, session).len() == 0,
{
    lemma_replay_sound(retained, filter, session);
    lemma_replay_complete(retained, filter, session);
    let d = spec_replay(retained, filter, session);
    if d.len() > 0 {
        assert(replayed_from_match(retained, filter, session, 0));
    }
}

} // verus!
