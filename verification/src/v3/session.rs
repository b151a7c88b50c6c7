//! The decisions of the MQTT v3.1.1 TCP client: what each call and each
//! packet from the broker does to the client's state, and which packets it
//! sends in return. Sockets, timers and the subscribers' channels are left
//! to the caller.

use vstd::prelude::*;
use vstd::string::StringSliceAdditionalSpecFns;
use vstd::utf8::encode_utf8;

use super::codec::{spec_length_prefixed, spec_packet, MAX_FIELD_LENGTH, MAX_REMAINING_LENGTH};
use super::packet::{
    be16, build_disconnect, build_pingreq, build_publish, build_pubrel, build_subscribe,
    build_unsubscribe, parse_publish, spec_parse_publish, spec_pid, spec_publish_body,
    spec_publish_flags, PublishError,
};
use crate::client::{BackPressurePolicy, Health, HealthStatus, MetricsSnapshot, SubscriberConfig};
use crate::error::Error;
use crate::message::{Message, MessageView, QoS};
use crate::mock::wadd;
use crate::topic::{match_topic, spec_match_topic};

verus! {

/// What an in-flight publish waits for next.
#[derive(Clone, Copy, Debug, PartialEq, Eq, Structural)]
pub enum Stage {
    /// A QoS 1 publish waits for PUBACK.
    Puback,
    /// A QoS 2 publish waits for PUBREC.
    Pubrec,
    /// A QoS 2 publish, released with PUBREL, waits for PUBCOMP.
    Pubcomp,
}

/// A subscription of the client: its identifier, filter and policy.
pub struct ClientSub {
    pub id: u64,
    pub filter: String,
    pub policy: BackPressurePolicy,
}

pub struct ClientSubView {
    pub id: u64,
    pub filter: Seq<char>,
    pub policy: BackPressurePolicy,
}

impl View for ClientSub {
    type V = ClientSubView;

    open spec fn view(&self) -> ClientSubView {
        ClientSubView { id: self.id, filter: self.filter@, policy: self.policy }
    }
}

/// The client's state: whether it is closed, its subscriptions, the next
/// subscription and packet identifiers, the in-flight publishes (at most
/// one per packet identifier) and the broker's address.
pub struct ClientSession {
    closed: bool,
    subs: Vec<ClientSub>,
    next_sub_id: u64,
    next_packet_id: u16,
    waiting: Vec<(u16, Stage)>,
    endpoint: String,
}

pub struct ClientView {
    pub closed: bool,
    pub subs: Seq<ClientSubView>,
    pub next_sub_id: u64,
    pub next_packet_id: u16,
    pub waiting: Seq<(u16, Stage)>,
    pub endpoint: Seq<char>,
}

impl View for ClientSession {
    type V = ClientView;

    closed spec fn view(&self) -> ClientView {
        ClientView {
            closed: self.closed,
            subs: self.subs@.map_values(|s: ClientSub| s@),
            next_sub_id: self.next_sub_id,
            next_packet_id: self.next_packet_id,
            waiting: self.waiting@,
            endpoint: self.endpoint@,
        }
    }
}

/// No two in-flight publishes share a packet identifier.
pub open spec fn distinct_waits(w: Seq<(u16, Stage)>) -> bool {
    forall|i: int, j: int| 0 <= i < j < w.len() ==> w[i].0 != w[j].0
}

/// The client's state is consistent: in-flight identifiers are distinct
/// and every filter fits its length prefix.
pub open spec fn client_wf(v: ClientView) -> bool {
    &&& distinct_waits(v.waiting)
    &&& forall|i: int|
        0 <= i < v.subs.len() ==> encode_utf8(#[trigger] v.subs[i].filter).len() <= MAX_FIELD_LENGTH
}

/// The packet identifier handed out when the counter reads `c`, and the
/// counter after: 0 is skipped, and the counter wraps at 2^16.
pub open spec fn spec_next_pid(c: u16) -> (u16, u16) {
    if c != 0 {
        (c, vstd::wrapping::u16_specs::wrapping_add(c, 1))
    } else {
        (1, 2)
    }
}

/// The position of the in-flight publish with identifier `pid`.
pub open spec fn spec_find_wait(w: Seq<(u16, Stage)>, pid: u16) -> Option<int> {
    if exists|i: int| 0 <= i < w.len() && w[i].0 == pid {
        Some(choose|i: int| 0 <= i < w.len() && w[i].0 == pid)
    } else {
        None
    }
}

/// The in-flight list after `pid` starts waiting at `stage`: it replaces
/// what waited under `pid`, or joins the end.
pub open spec fn spec_wait(w: Seq<(u16, Stage)>, pid: u16, stage: Stage) -> Seq<(u16, Stage)> {
    match spec_find_wait(w, pid) {
        Some(i) => w.update(i, (pid, stage)),
        None => w.push((pid, stage)),
    }
}

/// The first subscription with identifier `id`.
pub open spec fn spec_find_sub(subs: Seq<ClientSubView>, id: u64) -> Option<int> {
    if exists|i: int| 0 <= i < subs.len() && subs[i].id == id {
        Some(
            choose|i: int|
                0 <= i < subs.len() && subs[i].id == id && forall|j: int|
                    0 <= j < i ==> subs[j].id != id,
        )
    } else {
        None
    }
}

/// The identifiers of the subscriptions whose filter matches `topic`, in
/// the order they were made.
pub open spec fn spec_receivers(subs: Seq<ClientSubView>, topic: Seq<char>) -> Seq<u64>
    decreases subs.len(),
{
    if subs.len() == 0 {
        Seq::empty()
    } else {
        let p = spec_receivers(subs.drop_last(), topic);
        if spec_match_topic(encode_utf8(subs.last().filter), encode_utf8(topic)) {
            p.push(subs.last().id)
        } else {
            p
        }
    }
}

/// What a call to [`ClientSession::publish`] asks the caller to do: write
/// `packet`, then, for QoS 1 and 2, wait for the publish with identifier
/// `packet_id` to complete.
pub struct Publishing {
    pub packet: Vec<u8>,
    pub packet_id: Option<u16>,
}

/// What a call to [`ClientSession::subscribe`] gives: the new
/// subscription's identifier, the SUBSCRIBE packet to write, and the depth
/// of its channel.
pub struct Subscribing {
    pub id: u64,
    pub packet: Vec<u8>,
    pub depth: usize,
}

/// What a packet from the broker, or a silent read, asks of the caller.
pub enum ClientAction {
    /// Nothing to do.
    Nothing,
    /// Hand `message` to each listed subscription.
    Deliver { message: Message, subscriptions: Vec<u64> },
    /// Write this packet to the broker.
    Send(Vec<u8>),
    /// The publish with this packet identifier is acknowledged.
    Complete(u16),
    /// Close the connection.
    Close,
}

pub enum ActionView {
    Nothing,
    Deliver(MessageView, Seq<u64>),
    Send(Seq<u8>),
    Complete(u16),
    Close,
}

impl View for ClientAction {
    type V = ActionView;

    open spec fn view(&self) -> ActionView {
        match self {
            ClientAction::Nothing => ActionView::Nothing,
            ClientAction::Deliver { message, subscriptions } => ActionView::Deliver(
                message@,
                subscriptions@,
            ),
            ClientAction::Send(p) => ActionView::Send(p@),
            ClientAction::Complete(pid) => ActionView::Complete(*pid),
            ClientAction::Close => ActionView::Close,
        }
    }
}

/// How far reading CONNACK has got, given the bytes read so far.
pub enum ConnackStep {
    /// Read one more byte.
    NeedMore,
    /// The broker accepted the connection.
    Accepted,
    /// The connection failed.
    Failed(Error),
}

/// The text of the error for a first byte that is not CONNACK's.
pub open spec fn not_connack_text(first: u8) -> Seq<char> {
    "expected CONNACK (0x20), got 0x"@ + crate::text::hex2(first)
}

/// Reading CONNACK (§3.2) from the bytes read so far: the first must be
/// `0x20`, the Remaining Length at least 2, then the acknowledge flags and
/// the return code; a return code other than 0 refuses the connection.
pub fn connack_step(got: &[u8]) -> (r: ConnackStep)
    ensures
        got@.len() == 0 ==> r is NeedMore,
        got@.len() >= 1 && got@[0] != 0x20 ==> (r matches ConnackStep::Failed(Error::Protocol(s))
            && s@ == not_connack_text(got@[0])),
        got@.len() == 1 && got@[0] == 0x20 ==> r is NeedMore,
        got@.len() >= 2 && got@[0] == 0x20 && got@[1] < 2 ==> (r matches ConnackStep::Failed(
            Error::Protocol(s),
        ) && s@ == "CONNACK packet too short"@),
        2 <= got@.len() < 4 && got@[0] == 0x20 && got@[1] >= 2 ==> r is NeedMore,
        got@.len() >= 4 && got@[0] == 0x20 && got@[1] >= 2 ==> (if got@[3] == 0 {
            r is Accepted
        } else {
            r matches ConnackStep::Failed(Error::ConnectionRefused(c)) && c == got@[3]
        }),
{
    if got.len() == 0 {
        return ConnackStep::NeedMore;
    }
    if got[0] != 0x20 {
        let mut s = crate::text::owned("expected CONNACK (0x20), got 0x");
        crate::text::push_hex2(&mut s, got[0]);
        return ConnackStep::Failed(Error::Protocol(s));
    }
    if got.len() == 1 {
        return ConnackStep::NeedMore;
    }
    if got[1] < 2 {
        return ConnackStep::Failed(Error::Protocol(crate::text::owned("CONNACK packet too short")));
    }
    if got.len() < 4 {
        return ConnackStep::NeedMore;
    }
    if got[3] == 0 {
        ConnackStep::Accepted
    } else {
        ConnackStep::Failed(Error::ConnectionRefused(got[3]))
    }
}

impl ClientSession {
    pub closed spec fn wf(&self) -> bool {
        client_wf(self@)
    }

    /// A client's consistency is [`client_wf`] of its view.
    pub proof fn lemma_wf(&self)
        requires
            self.wf(),
        ensures
            client_wf(self@),
    {
    }

    /// A fresh, open client of the broker at `endpoint`: no subscriptions,
    /// nothing in flight, identifiers starting at 1.
    pub fn new(endpoint: &str) -> (r: Self)
        ensures
            r.wf(),
            r@ == (ClientView {
                closed: false,
                subs: Seq::empty(),
                next_sub_id: 1,
                next_packet_id: 1,
                waiting: Seq::empty(),
                endpoint: endpoint@,
            }),
    {
        let r = ClientSession {
            closed: false,
            subs: Vec::new(),
            next_sub_id: 1,
            next_packet_id: 1,
            waiting: Vec::new(),
            endpoint: crate::text::owned(endpoint),
        };
        assert(r@.subs =~= Seq::<ClientSubView>::empty());
        assert(r@.waiting =~= Seq::<(u16, Stage)>::empty());
        r
    }

    /// Whether the client is closed.
    pub fn is_closed(&self) -> (r: bool)
        ensures
            r == self@.closed,
    {
        self.closed
    }

    /// Hand out the next packet identifier; it is never 0.
    pub fn next_pid(&mut self) -> (r: u16)
        ensures
            r != 0,
            (r, final(self)@.next_packet_id) == spec_next_pid(old(self)@.next_packet_id),
            final(self)@ == (ClientView { next_packet_id: final(self)@.next_packet_id, ..old(self)@ }),
    {
        let c = self.next_packet_id;
        if c != 0 {
            self.next_packet_id = c.wrapping_add(1);
            c
        } else {
            self.next_packet_id = 2;
            1
        }
    }

    /// The health report: `Healthy` and connected while open, `Down` once
    /// closed; the endpoint is the broker's address.
    pub fn health(&self) -> (r: Health)
        ensures
            r.status == (if self@.closed {
                HealthStatus::Down
            } else {
                HealthStatus::Healthy
            }),
            r.connected == !self@.closed,
            r.endpoint@ == self@.endpoint,
            r.details@ == Seq::<char>::empty(),
    {
        Health::of_open_state(!self.closed, crate::text::owned(self.endpoint.as_str()))
    }

    /// The metrics: this client counts nothing, so all are zero.
    pub fn metrics(&self) -> (r: MetricsSnapshot)
        ensures
            r == MetricsSnapshot::default_spec(),
    {
        MetricsSnapshot::default()
    }
}


/// The position found for `pid` by a scan, when identifiers are distinct.
proof fn lemma_find_wait(w: Seq<(u16, Stage)>, pid: u16, found: Option<usize>)
    requires
        distinct_waits(w),
        found matches Some(i) ==> i < w.len() && w[i as int].0 == pid,
        found is None ==> forall|i: int| 0 <= i < w.len() ==> w[i].0 != pid,
    ensures
        spec_find_wait(w, pid) == match found {
            Some(i) => Some(i as int),
            None => None::<int>,
        },
{
    if let Some(i) = found {
        assert(w[i as int].0 == pid);
    }
}

/// The first subscription with identifier `id` is the one found.
proof fn lemma_find_sub_first(subs: Seq<ClientSubView>, id: u64, i: int)
    requires
        0 <= i < subs.len(),
        subs[i].id == id,
        forall|j: int| 0 <= j < i ==> subs[j].id != id,
    ensures
        spec_find_sub(subs, id) == Some(i),
{
    let c = choose|c: int|
        0 <= c < subs.len() && subs[c].id == id && forall|j: int| 0 <= j < c ==> subs[j].id != id;
    assert(0 <= c < subs.len() && subs[c].id == id && forall|j: int|
        0 <= j < c ==> subs[j].id != id);
    if c < i {
        assert(subs[c].id != id);
    }
    if c > i {
        assert(subs[i].id != id);
    }
}

/// Waiting or removing keeps in-flight identifiers distinct.
proof fn lemma_wait_distinct(w: Seq<(u16, Stage)>, pid: u16, stage: Stage)
    requires
        distinct_waits(w),
    ensures
        distinct_waits(spec_wait(w, pid, stage)),
        forall|i: int| 0 <= i < w.len() ==> distinct_waits(#[trigger] w.remove(i)),
{
    let n = spec_wait(w, pid, stage);
    match spec_find_wait(w, pid) {
        Some(i) => {
            assert forall|a: int, b: int| 0 <= a < b < n.len() implies n[a].0 != n[b].0 by {
                assert(w[a].0 != w[b].0);
            }
        },
        None => {
            assert forall|a: int, b: int| 0 <= a < b < n.len() implies n[a].0 != n[b].0 by {
                if b < w.len() {
                    assert(w[a].0 != w[b].0);
                }
            }
        },
    }
    assert forall|i: int| 0 <= i < w.len() implies distinct_waits(#[trigger] w.remove(i)) by {
        let r = w.remove(i);
        assert forall|a: int, b: int| 0 <= a < b < r.len() implies r[a].0 != r[b].0 by {
            let a2 = if a < i { a } else { a + 1 };
            let b2 = if b < i { b } else { b + 1 };
            assert(r[a] == w[a2] && r[b] == w[b2]);
        }
    }
}

impl ClientSession {
    /// The position of the in-flight publish with identifier `pid`.
    fn find_wait(&self, pid: u16) -> (r: Option<usize>)
        requires
            self.wf(),
        ensures
            spec_find_wait(self@.waiting, pid) == match r {
                Some(i) => Some(i as int),
                None => None::<int>,
            },
            r matches Some(i) ==> i < self@.waiting.len(),
    {
        let mut i: usize = 0;
        while i < self.waiting.len()
            invariant
                0 <= i <= self.waiting@.len(),
                distinct_waits(self@.waiting),
                self@.waiting == self.waiting@,
                forall|j: int| 0 <= j < i ==> self.waiting@[j].0 != pid,
            decreases self.waiting@.len() - i,
        {
            if self.waiting[i].0 == pid {
                proof {
                    lemma_find_wait(self@.waiting, pid, Some(i));
                }
                return Some(i);
            }
            i = i + 1;
        }
        proof {
            lemma_find_wait(self@.waiting, pid, None);
        }
        None
    }

    /// Let `pid` wait at `stage`, replacing what waited under it.
    fn wait(&mut self, pid: u16, stage: Stage)
        requires
            old(self).wf(),
        ensures
            final(self).wf(),
            final(self)@ == (ClientView {
                waiting: spec_wait(old(self)@.waiting, pid, stage),
                ..old(self)@
            }),
    {
        proof {
            lemma_wait_distinct(self@.waiting, pid, stage);
        }
        match self.find_wait(pid) {
            Some(i) => {
                self.waiting.set(i, (pid, stage));
            },
            None => {
                self.waiting.push((pid, stage));
            },
        }
    }

    /// The position of the first subscription with identifier `id`.
    fn position(&self, id: u64) -> (r: Option<usize>)
        ensures
            r matches Some(i) ==> spec_find_sub(self@.subs, id) == Some(i as int) && i
                < self@.subs.len(),
            r is None ==> spec_find_sub(self@.subs, id) is None,
    {
        let mut i: usize = 0;
        while i < self.subs.len()
            invariant
                0 <= i <= self.subs@.len(),
                forall|j: int| 0 <= j < i ==> (#[trigger] self.subs@[j]).id != id,
            decreases self.subs@.len() - i,
        {
            if self.subs[i].id == id {
                proof {
                    assert forall|j: int| 0 <= j < i implies (#[trigger] self@.subs[j]).id != id by {
                        assert(self@.subs[j] == self.subs@[j]@);
                    }
                    lemma_find_sub_first(self@.subs, id, i as int);
                }
                return Some(i);
            }
            i = i + 1;
        }
        proof {
            assert forall|j: int| 0 <= j < self@.subs.len() implies (#[trigger] self@.subs[j]).id
                != id by {
                assert(self@.subs[j] == self.subs@[j]@);
            }
        }
        None
    }

    /// Publish `payload` on `topic` at `qos`: refused with `Closed` once
    /// closed and with `TopicEmpty` for an empty topic. Otherwise QoS 0
    /// takes no packet identifier; QoS 1 and 2 take the next one, which
    /// then waits for PUBACK or PUBREC. The PUBLISH is not retained.
    pub fn publish(&mut self, topic: &str, qos: QoS, payload: &[u8]) -> (r: Result<
        Publishing,
        Error,
    >)
        requires
            old(self).wf(),
            !old(self)@.closed && topic@.len() > 0 ==> topic.spec_bytes().len() <= MAX_FIELD_LENGTH
                && topic.spec_bytes().len() + payload@.len() + 2 + (if qos != QoS::AtMostOnce {
                2int
            } else {
                0
            }) <= MAX_REMAINING_LENGTH,
        ensures
            final(self).wf(),
            old(self)@.closed ==> (r matches Err(Error::Closed)) && final(self)@ == old(self)@,
            !old(self)@.closed && topic@.len() == 0 ==> (r matches Err(Error::TopicEmpty))
                && final(self)@ == old(self)@,
            !old(self)@.closed && topic@.len() > 0 && qos == QoS::AtMostOnce ==> (r matches Ok(p)
                && p.packet_id is None && p.packet@ == spec_packet(
                3,
                spec_publish_flags(qos, false),
                spec_publish_body(topic.spec_bytes(), payload@, qos, None),
            )) && final(self)@ == old(self)@,
            !old(self)@.closed && topic@.len() > 0 && qos != QoS::AtMostOnce ==> ({
                let (pid, next) = spec_next_pid(old(self)@.next_packet_id);
                &&& r matches Ok(p)
                &&& p.packet_id == Some(pid)
                &&& p.packet@ == spec_packet(
                    3,
                    spec_publish_flags(qos, false),
                    spec_publish_body(topic.spec_bytes(), payload@, qos, Some(pid)),
                )
                &&& final(self)@ == (ClientView {
                    next_packet_id: next,
                    waiting: spec_wait(
                        old(self)@.waiting,
                        pid,
                        if qos == QoS::AtLeastOnce {
                            Stage::Puback
                        } else {
                            Stage::Pubrec
                        },
                    ),
                    ..old(self)@
                })
            }),
    {
        if self.closed {
            return Err(Error::Closed);
        }
        if topic.len() == 0 {
            return Err(Error::TopicEmpty);
        }
        if qos == QoS::AtMostOnce {
            let packet = build_publish(topic, payload, qos, false, None);
            return Ok(Publishing { packet, packet_id: None });
        }
        let pid = self.next_pid();
        let stage = if qos == QoS::AtLeastOnce {
            Stage::Puback
        } else {
            Stage::Pubrec
        };
        self.wait(pid, stage);
        let packet = build_publish(topic, payload, qos, false, Some(pid));
        Ok(Publishing { packet, packet_id: Some(pid) })
    }

    /// Forget the in-flight publish `pid`, whose wait was given up.
    pub fn forget(&mut self, pid: u16)
        requires
            old(self).wf(),
        ensures
            final(self).wf(),
            final(self)@ == (ClientView {
                waiting: match spec_find_wait(old(self)@.waiting, pid) {
                    Some(i) => old(self)@.waiting.remove(i),
                    None => old(self)@.waiting,
                },
                ..old(self)@
            }),
    {
        proof {
            lemma_wait_distinct(self@.waiting, pid, Stage::Puback);
        }
        match self.find_wait(pid) {
            Some(i) => {
                let _ = self.waiting.remove(i);
            },
            None => {},
        }
    }

    /// Subscribe to `filter` at `qos`: refused with `Closed` once closed and
    /// with `TopicEmpty` for an empty filter. Otherwise the SUBSCRIBE takes
    /// the next packet identifier, and the new subscription the next
    /// subscription identifier, the configured policy, and a channel of the
    /// configured depth (64 when 0).
    pub fn subscribe(&mut self, filter: &str, qos: QoS, config: SubscriberConfig) -> (r: Result<
        Subscribing,
        Error,
    >)
        requires
            old(self).wf(),
            !old(self)@.closed && filter@.len() > 0 ==> filter.spec_bytes().len()
                <= MAX_FIELD_LENGTH,
        ensures
            final(self).wf(),
            old(self)@.closed ==> (r matches Err(Error::Closed)) && final(self)@ == old(self)@,
            !old(self)@.closed && filter@.len() == 0 ==> (r matches Err(Error::TopicEmpty))
                && final(self)@ == old(self)@,
            !old(self)@.closed && filter@.len() > 0 ==> ({
                let (pid, next) = spec_next_pid(old(self)@.next_packet_id);
                let id = old(self)@.next_sub_id;
                &&& r matches Ok(s)
                &&& s.id == id
                &&& s.depth == (if config.channel_depth > 0 {
                    config.channel_depth
                } else {
                    64
                })
                &&& s.packet@ == spec_packet(
                    8,
                    2,
                    spec_pid(pid) + spec_length_prefixed(filter.spec_bytes()) + seq![
                        qos.spec_level(),
                    ],
                )
                &&& final(self)@ == (ClientView {
                    subs: old(self)@.subs.push(
                        ClientSubView { id, filter: filter@, policy: config.back_pressure },
                    ),
                    next_sub_id: wadd(id, 1),
                    next_packet_id: next,
                    ..old(self)@
                })
            }),
    {
        if self.closed {
            return Err(Error::Closed);
        }
        if filter.len() == 0 {
            return Err(Error::TopicEmpty);
        }
        let pid = self.next_pid();
        let packet = build_subscribe(filter, qos, pid);
        let id = self.next_sub_id;
        let sub = ClientSub {
            id,
            filter: crate::text::owned(filter),
            policy: config.back_pressure,
        };
        let ghost before = self@.subs;
        let ghost sv = sub@;
        self.subs.push(sub);
        assert(self@.subs =~= before.push(sv));
        self.next_sub_id = self.next_sub_id.wrapping_add(1);
        Ok(Subscribing { id, packet, depth: config.chan_depth(64) })
    }

    /// End the first subscription with identifier `id`: it is removed and
    /// an UNSUBSCRIBE for its filter, under the next packet identifier, is
    /// to be written. Nothing happens when there is none.
    pub fn unsubscribe(&mut self, id: u64) -> (r: Option<Vec<u8>>)
        requires
            old(self).wf(),
        ensures
            final(self).wf(),
            match spec_find_sub(old(self)@.subs, id) {
                None => r is None && final(self)@ == old(self)@,
                Some(i) => {
                    let (pid, next) = spec_next_pid(old(self)@.next_packet_id);
                    &&& r matches Some(p) && p@ == spec_packet(
                        10,
                        2,
                        spec_pid(pid) + spec_length_prefixed(
                            encode_utf8(old(self)@.subs[i].filter),
                        ),
                    )
                    &&& final(self)@ == (ClientView {
                        subs: old(self)@.subs.remove(i),
                        next_packet_id: next,
                        ..old(self)@
                    })
                },
            },
    {
        match self.position(id) {
            None => None,
            Some(i) => {
                let ghost before = self@.subs;
                let sub = self.subs.remove(i);
                assert(self@.subs =~= before.remove(i as int));
                assert(sub@ == before[i as int]);
                assert(encode_utf8(before[i as int].filter).len() <= MAX_FIELD_LENGTH);
                proof {
                    let n = self@.subs;
                    assert forall|j: int| 0 <= j < n.len() implies encode_utf8(
                        #[trigger] n[j].filter,
                    ).len() <= MAX_FIELD_LENGTH by {
                        let j2 = if j < i { j } else { j + 1 };
                        assert(n[j] == before[j2]);
                    }
                }
                let pid = self.next_pid();
                Some(build_unsubscribe(sub.filter.as_str(), pid))
            },
        }
    }

    /// Close the client: the first close marks it closed and asks for a
    /// DISCONNECT to be written; later closes do nothing.
    pub fn close(&mut self) -> (r: Option<Vec<u8>>)
        ensures
            final(self)@ == (ClientView { closed: true, ..old(self)@ }),
            old(self)@.closed ==> r is None,
            !old(self)@.closed ==> (r matches Some(p) && p@ == seq![0xE0u8, 0x00u8]),
    {
        if self.closed {
            None
        } else {
            self.closed = true;
            Some(build_disconnect())
        }
    }

    /// Mark the client closed, as when its connection is lost.
    pub fn mark_closed(&mut self)
        ensures
            final(self)@ == (ClientView { closed: true, ..old(self)@ }),
    {
        self.closed = true;
    }
}


/// What a packet from the broker does to the client (§3): a PUBLISH is
/// handed to every subscription whose filter matches its topic, except that
/// one with both QoS bits set closes the connection (MQTT-3.3.1-4) and a
/// body cut short or with a topic that is not UTF-8 is dropped. PUBACK
/// completes the QoS 1 publish waiting for it; PUBREC moves the QoS 2
/// publish waiting for it on to PUBCOMP and asks for PUBREL; PUBCOMP
/// completes it. DISCONNECT closes the connection. Anything else, or an
/// acknowledgement nothing waits for at that stage, does nothing.
pub open spec fn spec_on_packet(v: ClientView, first: u8, body: Seq<u8>) -> (ClientView, ActionView) {
    let t = first / 16;
    if t == 3 {
        match spec_parse_publish(first % 16, body) {
            Ok(m) => (v, ActionView::Deliver(m, spec_receivers(v.subs, m.topic))),
            Err(PublishError::InvalidQoS) => (ClientView { closed: true, ..v }, ActionView::Close),
            Err(_) => (v, ActionView::Nothing),
        }
    } else if (t == 4 || t == 5 || t == 7) && body.len() >= 2 {
        let pid = be16(body[0], body[1]) as u16;
        match spec_find_wait(v.waiting, pid) {
            Some(i) => {
                let stage = v.waiting[i].1;
                if t == 4 && stage == Stage::Puback {
                    (ClientView { waiting: v.waiting.remove(i), ..v }, ActionView::Complete(pid))
                } else if t == 5 && stage == Stage::Pubrec {
                    (
                        ClientView { waiting: v.waiting.update(i, (pid, Stage::Pubcomp)), ..v },
                        ActionView::Send(spec_packet(6, 2, spec_pid(pid))),
                    )
                } else if t == 7 && stage == Stage::Pubcomp {
                    (ClientView { waiting: v.waiting.remove(i), ..v }, ActionView::Complete(pid))
                } else {
                    (v, ActionView::Nothing)
                }
            },
            None => (v, ActionView::Nothing),
        }
    } else if t == 14 {
        (ClientView { closed: true, ..v }, ActionView::Close)
    } else {
        (v, ActionView::Nothing)
    }
}

impl ClientSession {
    /// The identifiers of the subscriptions whose filter matches `topic`.
    fn receivers(&self, topic: &str) -> (r: Vec<u64>)
        ensures
            r@ == spec_receivers(self@.subs, topic@),
    {
        let ghost subs = self@.subs;
        let mut ids: Vec<u64> = Vec::new();
        let mut i: usize = 0;
        while i < self.subs.len()
            invariant
                0 <= i <= self.subs@.len(),
                subs == self@.subs,
                subs.len() == self.subs@.len(),
                ids@ == spec_receivers(subs.subrange(0, i as int), topic@),
            decreases self.subs@.len() - i,
        {
            assert(subs.subrange(0, i + 1).drop_last() =~= subs.subrange(0, i as int));
            assert(subs[i as int] == self.subs@[i as int]@);
            if match_topic(self.subs[i].filter.as_str(), topic) {
                ids.push(self.subs[i].id);
            }
            i = i + 1;
        }
        assert(subs.subrange(0, subs.len() as int) =~= subs);
        ids
    }

    /// Handle a packet from the broker with first header byte `first` and
    /// body `body` (see [`spec_on_packet`]).
    pub fn on_packet(&mut self, first: u8, body: &[u8]) -> (r: ClientAction)
        requires
            old(self).wf(),
        ensures
            final(self).wf(),
            (final(self)@, r@) == spec_on_packet(old(self)@, first, body@),
    {
        let t = first / 16;
        if t == 3 {
            match parse_publish(first % 16, body) {
                Ok(m) => {
                    let ids = self.receivers(m.topic.as_str());
                    ClientAction::Deliver { message: m, subscriptions: ids }
                },
                Err(PublishError::InvalidQoS) => {
                    self.closed = true;
                    ClientAction::Close
                },
                Err(_) => ClientAction::Nothing,
            }
        } else if (t == 4 || t == 5 || t == 7) && body.len() >= 2 {
            let pid: u16 = (body[0] as u16) * 256 + body[1] as u16;
            proof {
                lemma_wait_distinct(self@.waiting, pid, Stage::Pubcomp);
            }
            match self.find_wait(pid) {
                None => ClientAction::Nothing,
                Some(i) => {
                    let stage = self.waiting[i].1;
                    if t == 4 && stage == Stage::Puback {
                        let _ = self.waiting.remove(i);
                        ClientAction::Complete(pid)
                    } else if t == 5 && stage == Stage::Pubrec {
                        self.waiting.set(i, (pid, Stage::Pubcomp));
                        proof {
                            let n = self@.waiting;
                            let w = old(self)@.waiting;
                            assert forall|a: int, b: int| 0 <= a < b < n.len() implies n[a].0
                                != n[b].0 by {
                                assert(w[a].0 != w[b].0);
                            }
                        }
                        ClientAction::Send(build_pubrel(pid))
                    } else if t == 7 && stage == Stage::Pubcomp {
                        let _ = self.waiting.remove(i);
                        ClientAction::Complete(pid)
                    } else {
                        ClientAction::Nothing
                    }
                },
            }
        } else if t == 14 {
            self.closed = true;
            ClientAction::Close
        } else {
            ClientAction::Nothing
        }
    }

    /// A read that gave nothing (the keepalive interval passed, or the read
    /// failed): with a keepalive, a PINGREQ is to be written and reading
    /// goes on; without one, the client closes.
    pub fn on_silence(&mut self, keepalive_secs: u16) -> (r: ClientAction)
        ensures
            keepalive_secs > 0 ==> (r matches ClientAction::Send(p) && p@ == seq![0xC0u8, 0x00u8])
                && final(self)@ == old(self)@,
            keepalive_secs == 0 ==> r is Close && final(self)@ == (ClientView {
                closed: true,
                ..old(self)@
            }),
    {
        if keepalive_secs > 0 {
            ClientAction::Send(build_pingreq())
        } else {
            self.closed = true;
            ClientAction::Close
        }
    }
}

/// A QoS 2 publish completes exactly once (§4.3.3): PUBREC for its packet
/// identifier asks for PUBREL, PUBCOMP then completes it, and a repeated
/// PUBCOMP does nothing.
pub proof fn lemma_qos2_handshake(v: ClientView, pid: u16)
    requires
        client_wf(v),
    ensures
        ({
            let w = ClientView { waiting: spec_wait(v.waiting, pid, Stage::Pubrec), ..v };
            let ack = spec_pid(pid);
            let (v1, a1) = spec_on_packet(w, 0x50, ack);
            let (v2, a2) = spec_on_packet(v1, 0x70, ack);
            let (v3, a3) = spec_on_packet(v2, 0x70, ack);
            &&& a1 == ActionView::Send(spec_packet(6, 2, ack))
            &&& a2 == ActionView::Complete(pid)
            &&& a3 == ActionView::Nothing
            &&& v3 == v2
        }),
{
    let ack = spec_pid(pid);
    assert((pid / 256) * 256 + pid % 256 == pid) by (nonlinear_arith);
    assert(ack[0] == pid / 256 && ack[1] == pid % 256);
    assert(be16(ack[0], ack[1]) == pid as nat);
    lemma_wait_distinct(v.waiting, pid, Stage::Pubrec);
    let w0 = spec_wait(v.waiting, pid, Stage::Pubrec);
    let j = match spec_find_wait(v.waiting, pid) {
        Some(i) => i,
        None => v.waiting.len() as int,
    };
    assert(w0[j] == (pid, Stage::Pubrec));
    assert(spec_find_wait(w0, pid) == Some(j)) by {
        let c = choose|c: int| 0 <= c < w0.len() && w0[c].0 == pid;
        if c != j {
            assert(w0[c].0 != w0[j].0);
        }
    }
    let w1 = w0.update(j, (pid, Stage::Pubcomp));
    assert(distinct_waits(w1)) by {
        assert forall|a: int, b: int| 0 <= a < b < w1.len() implies w1[a].0 != w1[b].0 by {
            assert(w0[a].0 != w0[b].0);
        }
    }
    assert(spec_find_wait(w1, pid) == Some(j)) by {
        assert(0 <= j < w1.len() && w1[j].0 == pid);
        let c = choose|c: int| 0 <= c < w1.len() && w1[c].0 == pid;
        if c != j {
            assert(w1[c].0 != w1[j].0);
        }
    }
    let w2 = w1.remove(j);
    assert forall|a: int| 0 <= a < w2.len() implies w2[a].0 != pid by {
        let a2 = if a < j { a } else { a + 1 };
        assert(w2[a] == w1[a2]);
        assert(w1[a2].0 != w1[j].0);
    }
}

/// A QoS 1 publish completes once: PUBACK for its packet identifier
/// completes it, and a repeated PUBACK does nothing.
pub proof fn lemma_qos1_acknowledged_once(v: ClientView, pid: u16)
    requires
        client_wf(v),
    ensures
        ({
            let w = ClientView { waiting: spec_wait(v.waiting, pid, Stage::Puback), ..v };
            let ack = spec_pid(pid);
            let (v1, a1) = spec_on_packet(w, 0x40, ack);
            let (v2, a2) = spec_on_packet(v1, 0x40, ack);
            &&& a1 == ActionView::Complete(pid)
            &&& a2 == ActionView::Nothing
            &&& v2 == v1
        }),
{
    let ack = spec_pid(pid);
    assert((pid / 256) * 256 + pid % 256 == pid) by (nonlinear_arith);
    assert(ack[0] == pid / 256 && ack[1] == pid % 256);
    assert(be16(ack[0], ack[1]) == pid as nat);
    lemma_wait_distinct(v.waiting, pid, Stage::Puback);
    let w0 = spec_wait(v.waiting, pid, Stage::Puback);
    let j = match spec_find_wait(v.waiting, pid) {
        Some(i) => i,
        None => v.waiting.len() as int,
    };
    assert(w0[j] == (pid, Stage::Puback));
    assert(spec_find_wait(w0, pid) == Some(j)) by {
        let c = choose|c: int| 0 <= c < w0.len() && w0[c].0 == pid;
        if c != j {
            assert(w0[c].0 != w0[j].0);
        }
    }
    let w2 = w0.remove(j);
    assert forall|a: int| 0 <= a < w2.len() implies w2[a].0 != pid by {
        let a2 = if a < j { a } else { a + 1 };
        assert(w2[a] == w0[a2]);
        assert(w0[a2].0 != w0[j].0);
    }
}


/// A PUBLISH from the broker on a topic that a subscription's filter
/// matches is handed to that subscription.
pub proof fn lemma_subscription_receives(v: ClientView, sub: ClientSubView, first: u8, body: Seq<u8>)
    requires
        first / 16 == 3,
        spec_parse_publish(first % 16, body) matches Ok(m) && spec_match_topic(
            encode_utf8(sub.filter),
            encode_utf8(m.topic),
        ),
    ensures
        spec_on_packet(ClientView { subs: v.subs.push(sub), ..v }, first, body).1 matches ActionView::Deliver(
            _,
            ids,
        ) && ids.contains(sub.id),
{
    let subs = v.subs.push(sub);
    assert(subs.drop_last() =~= v.subs);
    if let Ok(m) = spec_parse_publish(first % 16, body) {
        let ids = spec_receivers(subs, m.topic);
        assert(ids == spec_receivers(v.subs, m.topic).push(sub.id));
        assert(ids[ids.len() - 1] == sub.id);
    }
}

} // verus!
