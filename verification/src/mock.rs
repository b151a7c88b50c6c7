//! In-process MQTT broker state for the mock client.
//!
//! Publish/subscribe with wildcard topic matching per §4.7, retained
//! messages, the three back-pressure policies per subscription, and the
//! RELAY metrics. Every decision is made here; the asynchronous client only
//! serialises access to a [`MockBroker`] and wakes receivers.

use vstd::prelude::*;
use vstd::string::StringSliceAdditionalSpecFns;
use vstd::utf8::encode_utf8;

use crate::backpressure::RingQueue;
use crate::client::{BackPressurePolicy, Health, MetricsSnapshot, SubscriberConfig};
use crate::error::Error;
use crate::message::{plain_message_view, Message, MessageView, QoS};
use crate::topic::spec_match_topic;

verus! {

/// The channel depth of a subscription whose configuration leaves it at 0.
pub const DEFAULT_DEPTH: usize = 64;

/// `x + y`, wrapping at 2^64, as an atomic counter adds.
pub open spec fn wadd(x: u64, y: u64) -> u64 {
    vstd::wrapping::u64_specs::wrapping_add(x, y)
}

/// The abstract state of one subscription.
pub struct SubView {
    pub id: u64,
    pub filter: Seq<char>,
    pub policy: BackPressurePolicy,
    pub capacity: nat,
    /// Messages ready to be received, oldest first.
    pub queue: Seq<MessageView>,
    /// Under `Block`, messages waiting for room in the queue, oldest first.
    pub waiting: Seq<MessageView>,
    /// Whether the subscription still receives new messages.
    pub open: bool,
}

/// What offering a message to a subscription did.
pub enum Offer {
    /// Enqueued (or, under `Block`, queued up to wait for room).
    Delivered,
    /// Enqueued after evicting the oldest queued message.
    DeliveredEvicting,
    /// Dropped because the queue was full.
    Dropped,
}

/// Offer `m` to `s` under its back-pressure policy.
pub open spec fn spec_offer(s: SubView, m: MessageView) -> (SubView, Offer) {
    if s.queue.len() < s.capacity && s.waiting.len() == 0 {
        (SubView { queue: s.queue.push(m), ..s }, Offer::Delivered)
    } else {
        match s.policy {
            BackPressurePolicy::DropNewest => (s, Offer::Dropped),
            BackPressurePolicy::DropOldest => (
                SubView { queue: s.queue.drop_first().push(m), ..s },
                Offer::DeliveredEvicting,
            ),
            BackPressurePolicy::Block => (
                SubView { waiting: s.waiting.push(m), ..s },
                Offer::Delivered,
            ),
        }
    }
}

/// The metrics after an offer of a message with `len` payload bytes.
pub open spec fn count_offer(mt: MetricsSnapshot, o: Offer, len: nat) -> MetricsSnapshot {
    match o {
        Offer::Delivered => MetricsSnapshot {
            deliver_count: wadd(mt.deliver_count, 1),
            bytes_delivered: wadd(mt.bytes_delivered, len as u64),
            ..mt
        },
        Offer::DeliveredEvicting => MetricsSnapshot {
            deliver_count: wadd(mt.deliver_count, 1),
            bytes_delivered: wadd(mt.bytes_delivered, len as u64),
            drop_count: wadd(mt.drop_count, 1),
            ..mt
        },
        Offer::Dropped => MetricsSnapshot { drop_count: wadd(mt.drop_count, 1), ..mt },
    }
}

/// The subscription receives messages on `topic`: it is open and its
/// filter matches the topic (§4.7).
pub open spec fn receives(s: SubView, topic: Seq<char>) -> bool {
    s.open && spec_match_topic(encode_utf8(s.filter), encode_utf8(topic))
}

/// Offer `m`, published on `topic`, to every subscription that receives
/// it, in order, counting each offer when `count` is set.
pub open spec fn spec_fan_out(
    subs: Seq<SubView>,
    topic: Seq<char>,
    m: MessageView,
    mt: MetricsSnapshot,
    count: bool,
) -> (Seq<SubView>, MetricsSnapshot)
    decreases subs.len(),
{
    if subs.len() == 0 {
        (subs, mt)
    } else {
        let (p, pm) = spec_fan_out(subs.drop_last(), topic, m, mt, count);
        let s = subs.last();
        if receives(s, topic) {
            let (s2, o) = spec_offer(s, m);
            (p.push(s2), if count {
                count_offer(pm, o, m.payload.len())
            } else {
                pm
            })
        } else {
            (p.push(s), pm)
        }
    }
}

/// The abstract state of the broker.
pub struct BrokerView {
    pub closed: bool,
    pub subs: Seq<SubView>,
    /// Retained messages, one per topic, in the order their topics were
    /// first retained.
    pub retained: Seq<MessageView>,
    pub next_id: u64,
    /// The identifier counter has wrapped past `u64::MAX`, after which
    /// identifiers may repeat.
    pub ids_wrapped: bool,
    pub metrics: MetricsSnapshot,
}

/// The retained messages by topic.
pub open spec fn retained_map(r: Seq<MessageView>) -> Map<Seq<char>, MessageView>
    decreases r.len(),
{
    if r.len() == 0 {
        Map::empty()
    } else {
        retained_map(r.drop_last()).insert(r.last().topic, r.last())
    }
}

/// The retained list after retaining `m` on its topic: it replaces the
/// message held for that topic, or joins the end.
pub open spec fn spec_retain(r: Seq<MessageView>, m: MessageView) -> Seq<MessageView> {
    if exists|i: int| 0 <= i < r.len() && r[i].topic == m.topic {
        r.update(choose|i: int| 0 <= i < r.len() && r[i].topic == m.topic, m)
    } else {
        r.push(m)
    }
}

/// The retained list without the message held for `topic`.
pub open spec fn spec_unretain(r: Seq<MessageView>, topic: Seq<char>) -> Seq<MessageView> {
    if exists|i: int| 0 <= i < r.len() && r[i].topic == topic {
        r.remove(choose|i: int| 0 <= i < r.len() && r[i].topic == topic)
    } else {
        r
    }
}

/// The topics of a retained list are pairwise distinct.
pub open spec fn distinct_topics(r: Seq<MessageView>) -> bool {
    forall|i: int, j: int| 0 <= i < j < r.len() ==> r[i].topic != r[j].topic
}

/// A subscription's state is consistent: messages wait only when the queue
/// is full, and the queue never exceeds its capacity.
pub open spec fn sub_wf(s: SubView) -> bool {
    &&& s.capacity >= 1
    &&& s.queue.len() <= s.capacity
    &&& s.waiting.len() > 0 ==> s.queue.len() == s.capacity
}

/// Every subscription has an identifier below `next`, and no two share one.
pub open spec fn fresh_ids(subs: Seq<SubView>, next: u64) -> bool {
    &&& forall|i: int| 0 <= i < subs.len() ==> (#[trigger] subs[i]).id < next
    &&& forall|i: int, j: int| 0 <= i < j < subs.len() ==> subs[i].id != subs[j].id
}

/// The broker's state is consistent: subscriptions are consistent, every
/// subscription of an open broker is open, and, until the identifier
/// counter wraps, subscriptions have distinct identifiers below the next
/// one; retained messages have distinct topics and carry the retained flag.
pub open spec fn broker_wf(v: BrokerView) -> bool {
    &&& forall|i: int| 0 <= i < v.subs.len() ==> sub_wf(#[trigger] v.subs[i])
    &&& !v.closed ==> forall|i: int| 0 <= i < v.subs.len() ==> (#[trigger] v.subs[i]).open
    &&& distinct_topics(v.retained)
    &&& forall|i: int| 0 <= i < v.retained.len() ==> (#[trigger] v.retained[i]).retained
    &&& !v.ids_wrapped ==> fresh_ids(v.subs, v.next_id)
}

/// Removing a subscription keeps the broker consistent.
proof fn lemma_remove_wf(v: BrokerView, i: int)
    requires
        broker_wf(v),
        0 <= i < v.subs.len(),
    ensures
        broker_wf(BrokerView { subs: v.subs.remove(i), ..v }),
{
    let n = v.subs.remove(i);
    assert forall|a: int| 0 <= a < n.len() implies sub_wf(#[trigger] n[a]) && (!v.closed
        ==> n[a].open) by {
        let a2 = if a < i { a } else { a + 1 };
        assert(n[a] == v.subs[a2]);
    }
    if !v.ids_wrapped {
        assert forall|a: int, b: int| 0 <= a < b < n.len() implies n[a].id != n[b].id by {
            let a2 = if a < i { a } else { a + 1 };
            let b2 = if b < i { b } else { b + 1 };
            assert(n[a] == v.subs[a2] && n[b] == v.subs[b2]);
        }
        assert forall|a: int| 0 <= a < n.len() implies (#[trigger] n[a]).id < v.next_id by {
            let a2 = if a < i { a } else { a + 1 };
            assert(n[a] == v.subs[a2]);
        }
    }
}

/// Replacing a subscription by a consistent one with the same identifier
/// keeps the broker consistent.
proof fn lemma_update_wf(v: BrokerView, i: int, s: SubView)
    requires
        broker_wf(v),
        0 <= i < v.subs.len(),
        sub_wf(s),
        s.id == v.subs[i].id,
        s.open == v.subs[i].open,
    ensures
        broker_wf(BrokerView { subs: v.subs.update(i, s), ..v }),
{
    let n = v.subs.update(i, s);
    assert forall|a: int| 0 <= a < n.len() implies sub_wf(#[trigger] n[a]) && (!v.closed
        ==> n[a].open) by {
        if a != i {
            assert(n[a] == v.subs[a]);
        }
    }
    if !v.ids_wrapped {
        lemma_same_ids(v.subs, n, v.next_id);
    }
}

/// Adding a consistent subscription under the next identifier, and moving
/// the counter on, keeps the broker consistent.
proof fn lemma_push_wf(v: BrokerView, s: SubView)
    requires
        broker_wf(v),
        sub_wf(s),
        s.id == v.next_id,
        s.open,
    ensures
        broker_wf(
            BrokerView {
                subs: v.subs.push(s),
                next_id: wadd(v.next_id, 1),
                ids_wrapped: v.ids_wrapped || v.next_id == u64::MAX,
                ..v
            },
        ),
{
    let n = v.subs.push(s);
    assert forall|a: int| 0 <= a < n.len() implies sub_wf(#[trigger] n[a]) && (!v.closed
        ==> n[a].open) by {
        if a < v.subs.len() {
            assert(n[a] == v.subs[a]);
        }
    }
    if !v.ids_wrapped && v.next_id < u64::MAX {
        assert(wadd(v.next_id, 1) == v.next_id + 1);
        assert forall|a: int| 0 <= a < n.len() implies (#[trigger] n[a]).id < wadd(v.next_id, 1) by {
            if a < v.subs.len() {
                assert(n[a] == v.subs[a]);
            }
        }
        assert forall|a: int, b: int| 0 <= a < b < n.len() implies n[a].id != n[b].id by {
            assert(n[a] == v.subs[a]);
            if b < v.subs.len() {
                assert(n[b] == v.subs[b]);
            }
        }
    }
}

/// Subscriptions with the same identifiers, position by position, keep
/// them fresh.
proof fn lemma_same_ids(a: Seq<SubView>, b: Seq<SubView>, next: u64)
    requires
        a.len() == b.len(),
        forall|i: int| 0 <= i < a.len() ==> a[i].id == b[i].id,
        fresh_ids(a, next),
    ensures
        fresh_ids(b, next),
{
    assert forall|i: int, j: int| 0 <= i < j < b.len() implies b[i].id != b[j].id by {
        assert(a[i].id != a[j].id);
    }
    assert forall|i: int| 0 <= i < b.len() implies (#[trigger] b[i]).id < next by {
        assert(a[i].id < next);
    }
}

/// The number of subscriptions that are still open.
pub open spec fn open_count(subs: Seq<SubView>) -> nat
    decreases subs.len(),
{
    if subs.len() == 0 {
        0
    } else {
        open_count(subs.drop_last()) + if subs.last().open {
            1nat
        } else {
            0
        }
    }
}

/// Removing a subscription lowers the open count by one when it was open.
proof fn lemma_open_count_remove(subs: Seq<SubView>, i: int)
    requires
        0 <= i < subs.len(),
    ensures
        open_count(subs.remove(i)) + (if subs[i].open {
            1nat
        } else {
            0nat
        }) == open_count(subs),
    decreases subs.len(),
{
    if i == subs.len() - 1 {
        assert(subs.remove(i) =~= subs.drop_last());
    } else {
        let p = subs.drop_last();
        lemma_open_count_remove(p, i);
        assert(subs.remove(i).drop_last() =~= p.remove(i));
        assert(subs.remove(i).last() == subs.last());
        assert(p[i] == subs[i]);
    }
}

/// The first subscription with identifier `id`.
pub open spec fn find_sub(subs: Seq<SubView>, id: u64) -> Option<int> {
    if exists|i: int| 0 <= i < subs.len() && subs[i].id == id {
        Some(
            choose|i: int|
                0 <= i < subs.len() && subs[i].id == id && forall|j: int|
                    0 <= j < i ==> subs[j].id != id,
        )
    } else {
        None
    }
}

/// What receiving from a subscription gives.
pub enum Received {
    /// The oldest queued message.
    Message(Message),
    /// Nothing is queued yet; the subscription is still open.
    Empty,
    /// Nothing is queued and nothing more will come.
    Closed,
}

/// One subscription record.
struct SubRecord {
    id: u64,
    filter: String,
    policy: BackPressurePolicy,
    queue: RingQueue<Message>,
    waiting: Vec<Message>,
    open: bool,
}

/// The views of a list of messages.
pub open spec fn views(s: Seq<Message>) -> Seq<MessageView> {
    s.map_values(|m: Message| m@)
}

impl View for SubRecord {
    type V = SubView;

    closed spec fn view(&self) -> SubView {
        SubView {
            id: self.id,
            filter: self.filter@,
            policy: self.policy,
            capacity: self.queue.spec_capacity(),
            queue: views(self.queue@),
            waiting: views(self.waiting@),
            open: self.open,
        }
    }
}

/// The in-process broker shared by a mock client and its peers.
pub struct MockBroker {
    closed: bool,
    subs: Vec<SubRecord>,
    retained: Vec<Message>,
    next_id: u64,
    ids_wrapped: Ghost<bool>,
    metrics: MetricsSnapshot,
}

impl View for MockBroker {
    type V = BrokerView;

    closed spec fn view(&self) -> BrokerView {
        BrokerView {
            closed: self.closed,
            subs: self.subs@.map_values(|s: SubRecord| s@),
            retained: views(self.retained@),
            next_id: self.next_id,
            ids_wrapped: self.ids_wrapped@,
            metrics: self.metrics,
        }
    }
}

impl SubRecord {
    /// Offer a message under the subscription's policy.
    fn offer(&mut self, m: Message) -> (r: Offer)
        requires
            sub_wf(old(self)@),
        ensures
            (final(self)@, r) == spec_offer(old(self)@, m@),
            sub_wf(final(self)@),
    {
        let ghost mv = m@;
        let full = self.queue.is_full();
        let cap = self.queue.capacity();
        if !full && self.waiting.len() == 0 {
            let _ = self.queue.push_drop_newest(m);
            assert(views(self.queue@) =~= views(old(self).queue@).push(mv));
            return Offer::Delivered;
        }
        match self.policy {
            BackPressurePolicy::DropNewest => Offer::Dropped,
            BackPressurePolicy::DropOldest => {
                let _ = self.queue.push_drop_oldest(m);
                assert(views(self.queue@) =~= views(old(self).queue@).drop_first().push(mv));
                Offer::DeliveredEvicting
            },
            BackPressurePolicy::Block => {
                self.waiting.push(m);
                assert(views(self.waiting@) =~= views(old(self).waiting@).push(mv));
                Offer::Delivered
            },
        }
    }
}

impl SubRecord {
    /// Take the oldest queued message; then the oldest waiting message
    /// moves into the queue.
    fn take(&mut self) -> (r: Option<Message>)
        requires
            sub_wf(old(self)@),
        ensures
            sub_wf(final(self)@),
            final(self)@ == spec_receive(old(self)@).0,
            match spec_receive(old(self)@).1 {
                Some(mv) => r matches Some(m) && m@ == mv,
                None => r is None,
            },
    {
        let popped = self.queue.pop();
        match popped {
            Some(m) => {
                if self.waiting.len() > 0 {
                    let w = self.waiting.remove(0);
                    let _ = self.queue.push_drop_newest(w);
                }
                assert(views(self.queue@) =~= spec_receive(old(self)@).0.queue);
                assert(views(self.waiting@) =~= spec_receive(old(self)@).0.waiting);
                Some(m)
            },
            None => None,
        }
    }
}

impl MockBroker {
    /// The broker's state is consistent.
    pub closed spec fn wf(&self) -> bool {
        broker_wf(self@)
    }

    /// A broker's consistency is [`broker_wf`] of its view.
    pub proof fn lemma_wf(&self)
        requires
            self.wf(),
        ensures
            broker_wf(self@),
    {
    }

    /// A new broker: open, with no subscriptions, no retained messages,
    /// zero metrics, and subscription identifiers starting at 1.
    pub fn new() -> (r: Self)
        ensures
            r.wf(),
            r@.closed == false,
            r@.next_id == 1,
            !r@.ids_wrapped,
            r@.subs == Seq::<SubView>::empty(),
            r@.retained == Seq::<MessageView>::empty(),
            r@.metrics == MetricsSnapshot::default_spec(),
    {
        let r = MockBroker {
            closed: false,
            subs: Vec::new(),
            retained: Vec::new(),
            next_id: 1,
            ids_wrapped: Ghost(false),
            metrics: MetricsSnapshot {
                write_count: 0,
                deliver_count: 0,
                drop_count: 0,
                bytes_written: 0,
                bytes_delivered: 0,
                error_count: 0,
            },
        };
        assert(r@.subs =~= Seq::<SubView>::empty());
        assert(r@.retained =~= Seq::<MessageView>::empty());
        r
    }

    /// Offer `m` to every subscription that receives `topic`, counting the
    /// offers when `count` is set.
    fn fan_out(&mut self, topic: &str, m: &Message, count: bool)
        requires
            old(self).wf(),
        ensures
            final(self).wf(),
            (final(self)@.subs, final(self)@.metrics) == spec_fan_out(
                old(self)@.subs,
                topic@,
                m@,
                old(self)@.metrics,
                count,
            ),
            final(self)@.closed == old(self)@.closed,
            final(self)@.retained == old(self)@.retained,
            final(self)@.next_id == old(self)@.next_id,
            final(self)@.ids_wrapped == old(self)@.ids_wrapped,
    {
        let ghost old_subs = self@.subs;
        let ghost old_metrics = self@.metrics;
        let n = self.subs.len();
        let mut i: usize = 0;
        while i < n
            invariant
                n == self.subs@.len(),
                n == old_subs.len(),
                0 <= i <= n,
                self@.closed == old(self)@.closed,
                self@.retained == old(self)@.retained,
                self@.next_id == old(self)@.next_id,
                self@.ids_wrapped == old(self)@.ids_wrapped,
                broker_wf(self@),
                (self@.subs.subrange(0, i as int), self@.metrics) == spec_fan_out(
                    old_subs.subrange(0, i as int),
                    topic@,
                    m@,
                    old_metrics,
                    count,
                ),
                forall|j: int| i <= j < n ==> self@.subs[j] == old_subs[j],
            decreases n - i,
        {
            let ghost prev_subs = self@.subs;
            assert(old_subs.subrange(0, i + 1).drop_last() =~= old_subs.subrange(0, i as int));
            assert(self@.subs[i as int] == old_subs[i as int]);
            let receives_it = self.subs[i].open && crate::topic::match_topic(
                self.subs[i].filter.as_str(),
                topic,
            );
            if receives_it {
                let copy = m.clone();
                let len = m.payload.len() as u64;
                let o = self.subs[i].offer(copy);
                if count {
                    match o {
                        Offer::Delivered => {
                            self.metrics.deliver_count = self.metrics.deliver_count.wrapping_add(1);
                            self.metrics.bytes_delivered = self.metrics.bytes_delivered.wrapping_add(
                                len,
                            );
                        },
                        Offer::DeliveredEvicting => {
                            self.metrics.deliver_count = self.metrics.deliver_count.wrapping_add(1);
                            self.metrics.bytes_delivered = self.metrics.bytes_delivered.wrapping_add(
                                len,
                            );
                            self.metrics.drop_count = self.metrics.drop_count.wrapping_add(1);
                        },
                        Offer::Dropped => {
                            self.metrics.drop_count = self.metrics.drop_count.wrapping_add(1);
                        },
                    }
                }
            }
            proof {
                assert(self@.subs.subrange(0, i + 1) =~= self@.subs.subrange(0, i as int).push(
                    self@.subs[i as int],
                ));
                assert(self@.subs.subrange(0, i as int) =~= prev_subs.subrange(0, i as int));
                assert forall|j: int| 0 <= j < self@.subs.len() implies sub_wf(
                    #[trigger] self@.subs[j],
                ) && self@.subs[j].open == prev_subs[j].open by {
                    if j != i {
                        assert(self@.subs[j] == prev_subs[j]);
                    }
                }
                assert forall|j: int| 0 <= j < self@.subs.len() implies self@.subs[j].id
                    == prev_subs[j].id by {
                    if j != i {
                        assert(self@.subs[j] == prev_subs[j]);
                    }
                }
                if !self@.ids_wrapped {
                    lemma_same_ids(prev_subs, self@.subs, self@.next_id);
                }
            }
            i = i + 1;
        }
        assert(self@.subs.subrange(0, n as int) =~= self@.subs);
        assert(old_subs.subrange(0, n as int) =~= old_subs);
    }
}

/// The view of a freshly created subscription.
pub open spec fn fresh_sub(id: u64, filter: Seq<char>, config: SubscriberConfig) -> SubView {
    SubView {
        id,
        filter,
        policy: config.back_pressure,
        capacity: if config.channel_depth > 0 {
            config.channel_depth as nat
        } else {
            DEFAULT_DEPTH as nat
        },
        queue: Seq::empty(),
        waiting: Seq::empty(),
        open: true,
    }
}

/// Offer to `s`, in order, every retained message whose topic its filter
/// matches.
pub open spec fn spec_replay(s: SubView, r: Seq<MessageView>) -> SubView
    decreases r.len(),
{
    if r.len() == 0 {
        s
    } else {
        let p = spec_replay(s, r.drop_last());
        if spec_match_topic(encode_utf8(s.filter), encode_utf8(r.last().topic)) {
            spec_offer(p, r.last()).0
        } else {
            p
        }
    }
}

/// Receiving from `s`: the oldest queued message, after which the oldest
/// waiting message (under `Block`) moves into the queue.
pub open spec fn spec_receive(s: SubView) -> (SubView, Option<MessageView>) {
    if s.queue.len() == 0 {
        (s, None)
    } else if s.waiting.len() == 0 {
        (SubView { queue: s.queue.drop_first(), ..s }, Some(s.queue[0]))
    } else {
        (
            SubView {
                queue: s.queue.drop_first().push(s.waiting[0]),
                waiting: s.waiting.drop_first(),
                ..s
            },
            Some(s.queue[0]),
        )
    }
}

/// The message that publishing `payload` on `topic` at `qos` delivers.
pub open spec fn published(topic: Seq<char>, payload: Seq<u8>, qos: QoS) -> MessageView {
    plain_message_view(topic, payload, qos, false, 0)
}

/// The metrics after an accepted publish of `len` payload bytes, before
/// its deliveries are counted.
pub open spec fn count_write(mt: MetricsSnapshot, len: nat) -> MetricsSnapshot {
    MetricsSnapshot {
        write_count: wadd(mt.write_count, 1),
        bytes_written: wadd(mt.bytes_written, len as u64),
        ..mt
    }
}

/// The metrics after a failed operation.
pub open spec fn count_error(mt: MetricsSnapshot) -> MetricsSnapshot {
    MetricsSnapshot { error_count: wadd(mt.error_count, 1), ..mt }
}

/// The broker after publishing `m` on `topic`.
pub open spec fn spec_publish(v: BrokerView, topic: Seq<char>, m: MessageView) -> BrokerView {
    let (subs, metrics) = spec_fan_out(
        v.subs,
        topic,
        m,
        count_write(v.metrics, m.payload.len()),
        true,
    );
    BrokerView { subs, metrics, ..v }
}

/// Every subscription is closed.
pub open spec fn all_closed(subs: Seq<SubView>) -> Seq<SubView> {
    subs.map_values(|s: SubView| SubView { open: false, ..s })
}


/// Retaining a message replaces the one held for its topic, or appends it,
/// and keeps the topics distinct.
pub(crate) proof fn lemma_retain(r: Seq<MessageView>, m: MessageView, found: Option<usize>)
    requires
        distinct_topics(r),
        found matches Some(i) ==> i < r.len() && r[i as int].topic == m.topic,
        found is None ==> forall|i: int| 0 <= i < r.len() ==> r[i].topic != m.topic,
    ensures
        spec_retain(r, m) == match found {
            Some(i) => r.update(i as int, m),
            None => r.push(m),
        },
        distinct_topics(spec_retain(r, m)),
{
    if let Some(i) = found {
        assert(exists|j: int| 0 <= j < r.len() && r[j].topic == m.topic) by {
            assert(r[i as int].topic == m.topic);
        }
        let c = choose|j: int| 0 <= j < r.len() && r[j].topic == m.topic;
        assert(c == i as int);
        let u = r.update(i as int, m);
        assert forall|a: int, b: int| 0 <= a < b < u.len() implies u[a].topic != u[b].topic by {
            if a != i && b != i {
            } else if a == i {
                assert(r[a].topic != r[b].topic);
            } else {
                assert(r[a].topic != r[b].topic);
            }
        }
    } else {
        let u = r.push(m);
        assert forall|a: int, b: int| 0 <= a < b < u.len() implies u[a].topic != u[b].topic by {
            if b == r.len() {
                assert(r[a].topic != m.topic);
            }
        }
    }
}

/// Removing the retained message of a topic drops it from the list, if it
/// is there, and keeps the topics distinct.
pub(crate) proof fn lemma_unretain(r: Seq<MessageView>, topic: Seq<char>, found: Option<usize>)
    requires
        distinct_topics(r),
        found matches Some(i) ==> i < r.len() && r[i as int].topic == topic,
        found is None ==> forall|i: int| 0 <= i < r.len() ==> r[i].topic != topic,
    ensures
        spec_unretain(r, topic) == match found {
            Some(i) => r.remove(i as int),
            None => r,
        },
        distinct_topics(spec_unretain(r, topic)),
{
    if let Some(i) = found {
        assert(exists|j: int| 0 <= j < r.len() && r[j].topic == topic) by {
            assert(r[i as int].topic == topic);
        }
        let c = choose|j: int| 0 <= j < r.len() && r[j].topic == topic;
        assert(c == i as int);
        let u = r.remove(i as int);
        assert forall|a: int, b: int| 0 <= a < b < u.len() implies u[a].topic != u[b].topic by {
            let a2 = if a < i { a } else { a + 1 };
            let b2 = if b < i { b } else { b + 1 };
            assert(u[a] == r[a2] && u[b] == r[b2]);
        }
    }
}

/// A retained list with distinct topics holds, by topic, exactly its
/// messages.
proof fn lemma_retained_map_index(r: Seq<MessageView>)
    requires
        distinct_topics(r),
    ensures
        forall|t: Seq<char>|
            #[trigger] retained_map(r).dom().contains(t) <==> exists|i: int|
                0 <= i < r.len() && r[i].topic == t,
        forall|i: int| 0 <= i < r.len() ==> retained_map(r)[#[trigger] r[i].topic] == r[i],
    decreases r.len(),
{
    if r.len() > 0 {
        let p = r.drop_last();
        let k = r.len() - 1;
        assert forall|a: int, b: int| 0 <= a < b < p.len() implies p[a].topic != p[b].topic by {
            assert(p[a] == r[a] && p[b] == r[b]);
        }
        lemma_retained_map_index(p);
        assert(r.last() == r[k]);
        assert(retained_map(r) == retained_map(p).insert(r[k].topic, r[k]));
        assert forall|t: Seq<char>| #[trigger] retained_map(r).dom().contains(t) <==> exists|i: int|
            0 <= i < r.len() && r[i].topic == t by {
            if retained_map(r).dom().contains(t) {
                if t != r[k].topic {
                    assert(retained_map(p).dom().contains(t));
                    let i = choose|i: int| 0 <= i < p.len() && p[i].topic == t;
                    assert(p[i] == r[i]);
                    assert(0 <= i < r.len() && r[i].topic == t);
                } else {
                    assert(0 <= k < r.len() && r[k].topic == t);
                }
            }
            if exists|i: int| 0 <= i < r.len() && r[i].topic == t {
                let i = choose|i: int| 0 <= i < r.len() && r[i].topic == t;
                if i < k {
                    assert(p[i] == r[i]);
                    assert(retained_map(p).dom().contains(t));
                }
            }
        }
        assert forall|i: int| 0 <= i < r.len() implies retained_map(r)[#[trigger] r[i].topic]
            == r[i] by {
            if i < k {
                assert(p[i] == r[i]);
                assert(r[i].topic != r[k].topic);
                assert(retained_map(p)[p[i].topic] == p[i]);
            }
        }
    }
}

/// Retaining `m` updates the retained messages by topic: `m` is held for
/// its topic, every other topic keeps its message.
#[verifier::spinoff_prover]
#[verifier::rlimit(40)]
proof fn lemma_retain_map(r: Seq<MessageView>, m: MessageView, found: Option<usize>)
    requires
        distinct_topics(r),
        found matches Some(i) ==> i < r.len() && r[i as int].topic == m.topic,
        found is None ==> forall|i: int| 0 <= i < r.len() ==> r[i].topic != m.topic,
    ensures
        retained_map(spec_retain(r, m)) == retained_map(r).insert(m.topic, m),
{
    lemma_retain(r, m, found);
    let r2 = spec_retain(r, m);
    lemma_retained_map_index(r);
    lemma_retained_map_index(r2);
    let k: int = match found {
        Some(i) => i as int,
        None => r.len() as int,
    };
    assert(r2[k] == m);
    assert forall|i: int| 0 <= i < r.len() && i != k implies r2[i] == r[i] by {}
    let want = retained_map(r).insert(m.topic, m);
    assert forall|t: Seq<char>| #[trigger] retained_map(r2).dom().contains(t) <==> want.dom().contains(
        t,
    ) by {
        if retained_map(r2).dom().contains(t) {
            let i = choose|i: int| 0 <= i < r2.len() && r2[i].topic == t;
            if i != k {
                assert(r[i].topic == t);
            }
        }
        if want.dom().contains(t) && t != m.topic {
            let i = choose|i: int| 0 <= i < r.len() && r[i].topic == t;
            assert(i != k);
            assert(r2[i].topic == t);
        }
    }
    assert forall|t: Seq<char>| #[trigger] retained_map(r2).dom().contains(t) implies retained_map(
        r2,
    )[t] == want[t] by {
        let i = choose|i: int| 0 <= i < r2.len() && r2[i].topic == t;
        assert(retained_map(r2)[r2[i].topic] == r2[i]);
        if i != k {
            assert(r2[i] == r[i]);
            assert(retained_map(r)[r[i].topic] == r[i]);
            assert(t != m.topic);
        }
    }
    assert(retained_map(r2) =~= want);
}

/// Dropping the retained message of `topic` removes that topic from the
/// retained messages by topic, and leaves every other topic as it was.
#[verifier::spinoff_prover]
#[verifier::rlimit(40)]
proof fn lemma_unretain_map(r: Seq<MessageView>, topic: Seq<char>, found: Option<usize>)
    requires
        distinct_topics(r),
        found matches Some(i) ==> i < r.len() && r[i as int].topic == topic,
        found is None ==> forall|i: int| 0 <= i < r.len() ==> r[i].topic != topic,
    ensures
        retained_map(spec_unretain(r, topic)) == retained_map(r).remove(topic),
{
    lemma_unretain(r, topic, found);
    let r2 = spec_unretain(r, topic);
    lemma_retained_map_index(r);
    lemma_retained_map_index(r2);
    let want = retained_map(r).remove(topic);
    match found {
        Some(k) => {
            let k = k as int;
            assert forall|i: int| 0 <= i < r2.len() implies r2[i] == r[if i < k {
                i
            } else {
                i + 1
            }] by {}
            assert forall|t: Seq<char>| #[trigger] retained_map(r2).dom().contains(t)
                <==> want.dom().contains(t) by {
                if retained_map(r2).dom().contains(t) {
                    let i = choose|i: int| 0 <= i < r2.len() && r2[i].topic == t;
                    let j = if i < k {
                        i
                    } else {
                        i + 1
                    };
                    assert(r[j].topic == t);
                    assert(j != k);
                    assert(r[j].topic != r[k].topic);
                }
                if want.dom().contains(t) {
                    let j = choose|j: int| 0 <= j < r.len() && r[j].topic == t;
                    assert(j != k);
                    let i = if j < k {
                        j
                    } else {
                        j - 1
                    };
                    assert(r2[i] == r[j]);
                }
            }
            assert forall|t: Seq<char>| #[trigger] retained_map(r2).dom().contains(t) implies retained_map(
                r2,
            )[t] == want[t] by {
                let i = choose|i: int| 0 <= i < r2.len() && r2[i].topic == t;
                let j = if i < k {
                    i
                } else {
                    i + 1
                };
                assert(retained_map(r2)[r2[i].topic] == r2[i]);
                assert(retained_map(r)[r[j].topic] == r[j]);
            }
        },
        None => {
            assert forall|t: Seq<char>| #[trigger] retained_map(r2).dom().contains(t)
                <==> want.dom().contains(t) by {}
        },
    }
    assert(retained_map(r2) =~= want);
}

/// Fanning out without counting leaves the metrics as they were.
proof fn lemma_fan_out_uncounted(
    subs: Seq<SubView>,
    topic: Seq<char>,
    m: MessageView,
    mt: MetricsSnapshot,
)
    ensures
        spec_fan_out(subs, topic, m, mt, false).1 == mt,
    decreases subs.len(),
{
    if subs.len() > 0 {
        lemma_fan_out_uncounted(subs.drop_last(), topic, m, mt);
    }
}


/// The first subscription with identifier `id` is the one `find_sub`
/// names.
proof fn lemma_find_sub_first(subs: Seq<SubView>, id: u64, i: int)
    requires
        0 <= i < subs.len(),
        subs[i].id == id,
        forall|j: int| 0 <= j < i ==> subs[j].id != id,
    ensures
        find_sub(subs, id) == Some(i),
{
    let c = choose|c: int|
        0 <= c < subs.len() && subs[c].id == id && forall|j: int| 0 <= j < c ==> subs[j].id != id;
    assert(0 <= c < subs.len() && subs[c].id == id && forall|j: int|
        0 <= j < c ==> subs[j].id != id);
    if c < i {
        assert(subs[c].id != id);
    }
    if c > i {
        assert(subs[i].id != id);
    }
}

/// Without a subscription with identifier `id`, `find_sub` names none.
proof fn lemma_find_sub_none(subs: Seq<SubView>, id: u64)
    requires
        forall|j: int| 0 <= j < subs.len() ==> subs[j].id != id,
    ensures
        find_sub(subs, id) is None,
{
}

impl MetricsSnapshot {
    /// All counters zero.
    pub open spec fn default_spec() -> MetricsSnapshot {
        MetricsSnapshot {
            write_count: 0,
            deliver_count: 0,
            drop_count: 0,
            bytes_written: 0,
            bytes_delivered: 0,
            error_count: 0,
        }
    }
}


impl MockBroker {
    /// Publish `payload` to `topic` at `qos`: refused with `Closed` once the
    /// broker is closed and with `TopicEmpty` for an empty topic (each
    /// counted as an error); otherwise counted as a write and offered to
    /// every open subscription whose filter matches the topic.
    pub fn publish(&mut self, topic: &str, qos: QoS, payload: Vec<u8>) -> (r: Result<(), Error>)
        requires
            old(self).wf(),
        ensures
            final(self).wf(),
            old(self)@.closed ==> (r matches Err(Error::Closed)) && final(self)@ == (BrokerView {
                metrics: count_error(old(self)@.metrics),
                ..old(self)@
            }),
            !old(self)@.closed && topic@.len() == 0 ==> (r matches Err(Error::TopicEmpty))
                && final(self)@ == (BrokerView {
                metrics: count_error(old(self)@.metrics),
                ..old(self)@
            }),
            !old(self)@.closed && topic@.len() > 0 ==> r is Ok && final(self)@ == spec_publish(
                old(self)@,
                topic@,
                published(topic@, payload@, qos),
            ),
    {
        if self.closed {
            self.metrics.error_count = self.metrics.error_count.wrapping_add(1);
            return Err(Error::Closed);
        }
        if topic.is_empty() {
            self.metrics.error_count = self.metrics.error_count.wrapping_add(1);
            return Err(Error::TopicEmpty);
        }
        let len = payload.len() as u64;
        let m = Message::plain(crate::text::owned(topic), payload, qos, false, 0);
        self.metrics.write_count = self.metrics.write_count.wrapping_add(1);
        self.metrics.bytes_written = self.metrics.bytes_written.wrapping_add(len);
        self.fan_out(topic, &m, true);
        Ok(())
    }

    /// Deliver `msg` to every open subscription whose filter matches its
    /// topic, as a broker delivering it without a publish: nothing is
    /// counted.
    pub fn inject(&mut self, msg: &Message)
        requires
            old(self).wf(),
        ensures
            final(self).wf(),
            final(self)@ == (BrokerView {
                subs: spec_fan_out(old(self)@.subs, msg.topic@, msg@, old(self)@.metrics, false).0,
                ..old(self)@
            }),
    {
        self.fan_out(msg.topic.as_str(), msg, false);
        proof {
            lemma_fan_out_uncounted(old(self)@.subs, msg.topic@, msg@, old(self)@.metrics);
        }
    }

    /// The position of the retained message for `topic`.
    fn find_retained(&self, topic: &str) -> (r: Option<usize>)
        ensures
            r matches Some(i) ==> i < self@.retained.len() && self@.retained[i as int].topic
                == topic@,
            r is None ==> forall|i: int|
                0 <= i < self@.retained.len() ==> self@.retained[i].topic != topic@,
    {
        let mut i: usize = 0;
        while i < self.retained.len()
            invariant
                0 <= i <= self@.retained.len(),
                self@.retained.len() == self.retained@.len(),
                forall|j: int| 0 <= j < i ==> self@.retained[j].topic != topic@,
            decreases self.retained@.len() - i,
        {
            if crate::text::str_eq(self.retained[i].topic.as_str(), topic) {
                return Some(i);
            }
            i = i + 1;
        }
        None
    }

    /// Publish with the retained flag: refused with `Closed` once closed
    /// and with `TopicEmpty` for an empty topic (not counted); otherwise the
    /// message is retained for its topic (an empty payload removes the
    /// retained message instead), then published as [`MockBroker::publish`]
    /// does.
    pub fn publish_retained(&mut self, topic: &str, qos: QoS, payload: Vec<u8>) -> (r: Result<
        (),
        Error,
    >)
        requires
            old(self).wf(),
        ensures
            final(self).wf(),
            old(self)@.closed ==> (r matches Err(Error::Closed)) && final(self)@ == old(self)@,
            !old(self)@.closed && topic@.len() == 0 ==> (r matches Err(Error::TopicEmpty))
                && final(self)@ == old(self)@,
            !old(self)@.closed && topic@.len() > 0 ==> r is Ok && final(self)@ == spec_publish(
                BrokerView {
                    retained: if payload@.len() == 0 {
                        spec_unretain(old(self)@.retained, topic@)
                    } else {
                        spec_retain(
                            old(self)@.retained,
                            plain_message_view(topic@, payload@, qos, true, 0),
                        )
                    },
                    ..old(self)@
                },
                topic@,
                published(topic@, payload@, qos),
            ),
            !old(self)@.closed && topic@.len() > 0 ==> retained_map(final(self)@.retained) == if payload@.len()
                == 0 {
                retained_map(old(self)@.retained).remove(topic@)
            } else {
                retained_map(old(self)@.retained).insert(
                    topic@,
                    plain_message_view(topic@, payload@, qos, true, 0),
                )
            },
    {
        if self.closed {
            return Err(Error::Closed);
        }
        if topic.is_empty() {
            return Err(Error::TopicEmpty);
        }
        let ghost old_retained = self@.retained;
        let found = self.find_retained(topic);
        if payload.len() == 0 {
            match found {
                Some(i) => {
                    let _ = self.retained.remove(i);
                },
                None => {},
            }
            proof {
                lemma_unretain(old_retained, topic@, found);
                lemma_unretain_map(old_retained, topic@, found);
                assert(views(self.retained@) =~= spec_unretain(old_retained, topic@));
            }
        } else {
            let m = Message::plain(
                crate::text::owned(topic),
                crate::message::copy_bytes(&payload),
                qos,
                true,
                0,
            );
            let ghost mv = m@;
            match found {
                Some(i) => {
                    self.retained.set(i, m);
                },
                None => {
                    self.retained.push(m);
                },
            }
            proof {
                lemma_retain(old_retained, mv, found);
                lemma_retain_map(old_retained, mv, found);
                assert(views(self.retained@) =~= spec_retain(old_retained, mv));
            }
        }
        assert(self@.subs == old(self)@.subs);
        assert(broker_wf(self@));
        self.publish(topic, qos, payload)
    }

    /// Subscribe to `filter`: refused with `Closed` once closed and with
    /// `TopicEmpty` for an empty filter; otherwise a new open subscription
    /// with the configured depth (64 when 0) and policy, identified by the
    /// broker's next identifier, which is offered every retained message
    /// whose topic the filter matches, in the order they were retained.
    pub fn subscribe(&mut self, filter: &str, config: SubscriberConfig) -> (r: Result<u64, Error>)
        requires
            old(self).wf(),
        ensures
            final(self).wf(),
            old(self)@.closed ==> (r matches Err(Error::Closed)) && final(self)@ == old(self)@,
            !old(self)@.closed && filter@.len() == 0 ==> (r matches Err(Error::TopicEmpty))
                && final(self)@ == old(self)@,
            !old(self)@.closed && filter@.len() > 0 ==> r == Ok::<u64, Error>(old(self)@.next_id)
                && final(self)@ == (BrokerView {
                subs: old(self)@.subs.push(
                    spec_replay(
                        fresh_sub(old(self)@.next_id, filter@, config),
                        old(self)@.retained,
                    ),
                ),
                next_id: wadd(old(self)@.next_id, 1),
                ids_wrapped: old(self)@.ids_wrapped || old(self)@.next_id == u64::MAX,
                ..old(self)@
            }),
            r is Ok ==> open_count(final(self)@.subs) == open_count(old(self)@.subs) + 1,
    {
        if self.closed {
            return Err(Error::Closed);
        }
        if filter.is_empty() {
            return Err(Error::TopicEmpty);
        }
        let id = self.next_id;
        let mut rec = SubRecord {
            id,
            filter: crate::text::owned(filter),
            policy: config.back_pressure,
            queue: RingQueue::new(config.chan_depth(DEFAULT_DEPTH)),
            waiting: Vec::new(),
            open: true,
        };
        proof {
            assert(views(rec.queue@) =~= Seq::<MessageView>::empty());
            assert(views(rec.waiting@) =~= Seq::<MessageView>::empty());
            assert(rec@ == fresh_sub(id, filter@, config));
        }
        let n = self.retained.len();
        let mut i: usize = 0;
        assert(views(self.retained@).subrange(0, 0) =~= Seq::<MessageView>::empty());
        while i < n
            invariant
                n == self.retained@.len(),
                0 <= i <= n,
                rec@.filter == filter@,
                rec@.id == id,
                rec@.open,
                sub_wf(rec@),
                rec@ == spec_replay(
                    fresh_sub(id, filter@, config),
                    views(self.retained@).subrange(0, i as int),
                ),
            decreases n - i,
        {
            let ghost r = views(self.retained@);
            assert(r.subrange(0, i + 1).drop_last() =~= r.subrange(0, i as int));
            assert(r.subrange(0, i + 1).last() == self.retained@[i as int]@);
            if crate::topic::match_topic(filter, self.retained[i].topic.as_str()) {
                let copy = self.retained[i].clone();
                let _ = rec.offer(copy);
            }
            i = i + 1;
        }
        assert(views(self.retained@).subrange(0, n as int) =~= views(self.retained@));
        let ghost before = self@.subs;
        let ghost rv = rec@;
        self.subs.push(rec);
        if self.next_id == 0xFFFF_FFFF_FFFF_FFFFu64 {
            self.ids_wrapped = Ghost(true);
        }
        self.next_id = self.next_id.wrapping_add(1);
        assert(self@.subs =~= before.push(rv));
        proof {
            lemma_push_wf(old(self)@, rv);
            assert(before.push(rv).drop_last() =~= before);
        }
        Ok(id)
    }

    /// Remove the first subscription with identifier `id`; nothing changes
    /// when there is none. The count of open subscriptions drops by one
    /// exactly when `id` names an open subscription.
    #[verifier::rlimit(30)]
    pub fn unsubscribe(&mut self, id: u64)
        requires
            old(self).wf(),
        ensures
            final(self).wf(),
            final(self)@ == (BrokerView {
                subs: match find_sub(old(self)@.subs, id) {
                    Some(i) => old(self)@.subs.remove(i),
                    None => old(self)@.subs,
                },
                ..old(self)@
            }),
            (find_sub(old(self)@.subs, id) matches Some(i) && old(self)@.subs[i].open) ==> open_count(
                final(self)@.subs,
            ) + 1 == open_count(old(self)@.subs),
            !(find_sub(old(self)@.subs, id) matches Some(i) && old(self)@.subs[i].open) ==> open_count(
                final(self)@.subs,
            ) == open_count(old(self)@.subs),
            !old(self)@.ids_wrapped ==> find_sub(final(self)@.subs, id) is None,
    {
        match self.position(id) {
            Some(i) => {
                let ghost before = self@.subs;
                let _ = self.subs.remove(i);
                assert(self@.subs =~= before.remove(i as int));
                proof {
                    lemma_remove_wf(old(self)@, i as int);
                    lemma_open_count_remove(before, i as int);
                    if !old(self)@.ids_wrapped {
                        let n = self@.subs;
                        assert forall|j: int| 0 <= j < n.len() implies n[j].id != id by {
                            let j2 = if j < i {
                                j
                            } else {
                                j + 1
                            };
                            assert(n[j] == before[j2]);
                            assert(before[i as int].id == id);
                        }
                        lemma_find_sub_none(n, id);
                    }
                }
            },
            None => {},
        }
    }

    /// The position of the first subscription with identifier `id`.
    fn position(&self, id: u64) -> (r: Option<usize>)
        ensures
            r matches Some(i) ==> find_sub(self@.subs, id) == Some(i as int) && i
                < self@.subs.len(),
            r is None ==> find_sub(self@.subs, id) is None,
    {
        let mut i: usize = 0;
        while i < self.subs.len()
            invariant
                0 <= i <= self.subs@.len(),
                forall|j: int| 0 <= j < i ==> (#[trigger] self.subs@[j]).id != id,
            decreases self.subs@.len() - i,
        {
            if self.subs[i].id == id {
                proof {
                    assert forall|j: int| 0 <= j < i implies (#[trigger] self@.subs[j]).id != id by {
                        assert(self@.subs[j] == self.subs@[j]@);
                    }
                    lemma_find_sub_first(self@.subs, id, i as int);
                }
                return Some(i);
            }
            i = i + 1;
        }
        proof {
            assert forall|j: int| 0 <= j < self@.subs.len() implies (#[trigger] self@.subs[j]).id
                != id by {
                assert(self@.subs[j] == self.subs@[j]@);
            }
            lemma_find_sub_none(self@.subs, id);
        }
        None
    }

    /// Receive from subscription `id`: its oldest queued message (and then
    /// the oldest message waiting under `Block` moves into the queue);
    /// `Empty` when nothing is queued and the subscription is open;
    /// `Closed` when nothing is queued and it is closed, or when there is
    /// no such subscription.
    #[verifier::rlimit(50)]
    pub fn receive(&mut self, id: u64) -> (r: Received)
        requires
            old(self).wf(),
        ensures
            final(self).wf(),
            match find_sub(old(self)@.subs, id) {
                None => r is Closed && final(self)@ == old(self)@,
                Some(i) => {
                    let (s2, got) = spec_receive(old(self)@.subs[i]);
                    &&& final(self)@ == (BrokerView {
                        subs: old(self)@.subs.update(i, s2),
                        ..old(self)@
                    })
                    &&& match got {
                        Some(mv) => r matches Received::Message(m) && m@ == mv,
                        None => if old(self)@.subs[i].open {
                            r is Empty
                        } else {
                            r is Closed
                        },
                    }
                },
            },
    {
        let i = match self.position(id) {
            Some(i) => i,
            None => {
                return Received::Closed;
            },
        };
        let ghost before = self@.subs;
        let got = self.subs[i].take();
        proof {
            let s2 = spec_receive(before[i as int]).0;
            assert(self@.subs[i as int] == s2);
            assert(self@.subs =~= before.update(i as int, s2));
            assert(s2.id == before[i as int].id);
            lemma_update_wf(old(self)@, i as int, s2);
        }
        match got {
            Some(m) => Received::Message(m),
            None => {
                if self.subs[i].open {
                    Received::Empty
                } else {
                    Received::Closed
                }
            },
        }
    }

    /// Copies of the retained messages, in the order their topics were
    /// first retained.
    pub fn retained_messages(&self) -> (r: Vec<Message>)
        ensures
            views(r@) == self@.retained,
    {
        let mut r: Vec<Message> = Vec::new();
        let mut i: usize = 0;
        while i < self.retained.len()
            invariant
                0 <= i <= self.retained@.len(),
                views(r@) == views(self.retained@).subrange(0, i as int),
            decreases self.retained@.len() - i,
        {
            let ghost before = r@;
            let c = self.retained[i].clone();
            r.push(c);
            assert(r@ == before.push(c));
            assert(views(r@) =~= views(before).push(c@));
            assert(views(self.retained@).subrange(0, i + 1) =~= views(self.retained@).subrange(
                0,
                i as int,
            ).push(self.retained@[i as int]@));
            i = i + 1;
        }
        assert(views(self.retained@).subrange(0, self.retained@.len() as int) =~= views(
            self.retained@,
        ));
        r
    }

    /// Forget every retained message.
    pub fn clear_retained(&mut self)
        requires
            old(self).wf(),
        ensures
            final(self).wf(),
            final(self)@ == (BrokerView { retained: Seq::empty(), ..old(self)@ }),
    {
        self.retained = Vec::new();
        assert(views(self.retained@) =~= Seq::<MessageView>::empty());
    }

    /// The number of open subscriptions.
    pub fn subscription_count(&self) -> (r: usize)
        ensures
            r == open_count(self@.subs),
    {
        let mut count: usize = 0;
        let mut i: usize = 0;
        while i < self.subs.len()
            invariant
                0 <= i <= self.subs@.len(),
                self@.subs.len() == self.subs@.len(),
                count == open_count(self@.subs.subrange(0, i as int)),
                count <= i,
            decreases self.subs@.len() - i,
        {
            assert(self@.subs.subrange(0, i + 1).drop_last() =~= self@.subs.subrange(0, i as int));
            if self.subs[i].open {
                count = count + 1;
            }
            i = i + 1;
        }
        assert(self@.subs.subrange(0, i as int) =~= self@.subs);
        count
    }

    /// Close the broker: every later publish and subscribe is refused, and
    /// every subscription stops receiving new messages (what is queued can
    /// still be received). Closing twice is the same as closing once.
    pub fn close(&mut self)
        requires
            old(self).wf(),
        ensures
            final(self).wf(),
            final(self)@ == (BrokerView {
                closed: true,
                subs: all_closed(old(self)@.subs),
                ..old(self)@
            }),
    {
        self.closed = true;
        let ghost start = self@.subs;
        let mut i: usize = 0;
        while i < self.subs.len()
            invariant
                0 <= i <= self.subs@.len(),
                self.subs@.len() == start.len(),
                self.closed,
                self@.retained == old(self)@.retained,
                self@.next_id == old(self)@.next_id,
                self@.ids_wrapped == old(self)@.ids_wrapped,
                self@.metrics == old(self)@.metrics,
                start == old(self)@.subs,
                broker_wf(old(self)@),
                forall|j: int|
                    0 <= j < i ==> (#[trigger] self.subs@[j])@ == (SubView {
                        open: false,
                        ..start[j]
                    }),
                forall|j: int| i <= j < self.subs@.len() ==> (#[trigger] self.subs@[j])@ == start[j],
            decreases self.subs@.len() - i,
        {
            self.subs[i].open = false;
            i = i + 1;
        }
        assert(self@.subs =~= all_closed(start));
        assert forall|j: int| 0 <= j < self@.subs.len() implies sub_wf(#[trigger] self@.subs[j]) by {
            assert(sub_wf(start[j]));
        }
        proof {
            if !self@.ids_wrapped {
                lemma_same_ids(start, self@.subs, self@.next_id);
            }
        }
    }

    /// Whether the broker has been closed.
    pub fn is_closed(&self) -> (r: bool)
        ensures
            r == self@.closed,
    {
        self.closed
    }

    /// The health report: `Healthy` and connected until closed, then
    /// `Down`; the endpoint is `mock://in-process`.
    pub fn health(&self) -> (r: Health)
        ensures
            r.status == (if self@.closed {
                crate::client::HealthStatus::Down
            } else {
                crate::client::HealthStatus::Healthy
            }),
            r.connected == !self@.closed,
            r.endpoint@ == "mock://in-process"@,
    {
        Health::of_open_state(!self.closed, crate::text::owned("mock://in-process"))
    }

    /// The metrics so far.
    pub fn metrics(&self) -> (r: MetricsSnapshot)
        ensures
            r == self@.metrics,
    {
        self.metrics
    }
}

} // verus!

verus! {

/// Publish fan-out is per subscription: each subscription that receives
/// the topic gets the message offered under its own policy, and every other
/// subscription is left as it was.
pub proof fn lemma_fan_out_pointwise(
    subs: Seq<SubView>,
    topic: Seq<char>,
    m: MessageView,
    mt: MetricsSnapshot,
    count: bool,
)
    ensures
        spec_fan_out(subs, topic, m, mt, count).0.len() == subs.len(),
        forall|i: int|
            0 <= i < subs.len() ==> #[trigger] spec_fan_out(subs, topic, m, mt, count).0[i] == if receives(
                subs[i],
                topic,
            ) {
                spec_offer(subs[i], m).0
            } else {
                subs[i]
            },
    decreases subs.len(),
{
    if subs.len() > 0 {
        let p = subs.drop_last();
        lemma_fan_out_pointwise(p, topic, m, mt, count);
        assert forall|i: int| 0 <= i < subs.len() implies #[trigger] spec_fan_out(
            subs,
            topic,
            m,
            mt,
            count,
        ).0[i] == if receives(subs[i], topic) {
            spec_offer(subs[i], m).0
        } else {
            subs[i]
        } by {
            if i < p.len() {
                assert(spec_fan_out(p, topic, m, mt, count).0[i] == if receives(p[i], topic) {
                    spec_offer(p[i], m).0
                } else {
                    p[i]
                });
            }
        }
    }
}

/// After close, no publish reaches any subscription: every subscription of
/// a closed broker is left as it was.
pub proof fn lemma_closed_subscriptions_receive_nothing(
    subs: Seq<SubView>,
    topic: Seq<char>,
    m: MessageView,
    mt: MetricsSnapshot,
)
    ensures
        spec_fan_out(all_closed(subs), topic, m, mt, true).0 == all_closed(subs),
{
    lemma_fan_out_pointwise(all_closed(subs), topic, m, mt, true);
    assert(spec_fan_out(all_closed(subs), topic, m, mt, true).0 =~= all_closed(subs));
}

/// The retained messages whose topic `filter` matches, in order.
pub open spec fn matching_retained(filter: Seq<char>, r: Seq<MessageView>) -> Seq<MessageView>
    decreases r.len(),
{
    if r.len() == 0 {
        r
    } else {
        let p = matching_retained(filter, r.drop_last());
        if spec_match_topic(encode_utf8(filter), encode_utf8(r.last().topic)) {
            p.push(r.last())
        } else {
            p
        }
    }
}

/// What an empty subscription of capacity `cap` holds after `ms` are
/// offered to it in turn under `policy`, as (queue, waiting): `DropNewest`
/// keeps the first `cap`, `DropOldest` the last `cap`, and `Block` queues
/// the first `cap` with the rest waiting behind them, in order.
pub open spec fn bounded_delivery(policy: BackPressurePolicy, cap: nat, ms: Seq<MessageView>) -> (
    Seq<MessageView>,
    Seq<MessageView>,
) {
    if ms.len() <= cap {
        (ms, Seq::empty())
    } else {
        match policy {
            BackPressurePolicy::DropNewest => (ms.take(cap as int), Seq::empty()),
            BackPressurePolicy::DropOldest => (ms.skip(ms.len() - cap), Seq::empty()),
            BackPressurePolicy::Block => (ms.take(cap as int), ms.skip(cap as int)),
        }
    }
}

/// One more offer extends [`bounded_delivery`] by that message.
proof fn lemma_bounded_delivery_step(s: SubView, ms: Seq<MessageView>, x: MessageView)
    requires
        s.capacity >= 1,
        (s.queue, s.waiting) == bounded_delivery(s.policy, s.capacity, ms),
    ensures
        (spec_offer(s, x).0.queue, spec_offer(s, x).0.waiting) == bounded_delivery(
            s.policy,
            s.capacity,
            ms.push(x),
        ),
{
    let cap = s.capacity;
    let n = ms.push(x);
    if ms.len() < cap {
        assert(s.queue.push(x) =~= n);
    } else {
        assert(s.queue.len() == cap);
        match s.policy {
            BackPressurePolicy::DropNewest => {
                assert(n.take(cap as int) =~= s.queue);
            },
            BackPressurePolicy::DropOldest => {
                assert(s.queue.drop_first().push(x) =~= n.skip(n.len() - cap));
            },
            BackPressurePolicy::Block => {
                assert(n.take(cap as int) =~= s.queue);
                assert(s.waiting.push(x) =~= n.skip(cap as int));
            },
        }
    }
}

/// Retained delivery on subscribe, for every depth and policy: a new
/// subscription starts out holding exactly the retained messages whose
/// topic its filter matches, in the order they were retained, as far as
/// its policy's bound lets them in (see [`bounded_delivery`]); its
/// identifier, filter, policy and capacity are those it was made with, and
/// it is open.
pub proof fn lemma_subscribe_replays_retained(
    id: u64,
    filter: Seq<char>,
    config: SubscriberConfig,
    r: Seq<MessageView>,
)
    ensures
        ({
            let s = spec_replay(fresh_sub(id, filter, config), r);
            &&& (s.queue, s.waiting) == bounded_delivery(
                config.back_pressure,
                fresh_sub(id, filter, config).capacity,
                matching_retained(filter, r),
            )
            &&& s.id == id
            &&& s.filter == filter
            &&& s.open
            &&& s.capacity == fresh_sub(id, filter, config).capacity
            &&& s.policy == config.back_pressure
        }),
    decreases r.len(),
{
    if r.len() > 0 {
        let p = r.drop_last();
        lemma_subscribe_replays_retained(id, filter, config, p);
        let ps = spec_replay(fresh_sub(id, filter, config), p);
        if spec_match_topic(encode_utf8(filter), encode_utf8(r.last().topic)) {
            lemma_bounded_delivery_step(ps, matching_retained(filter, p), r.last());
        }
    } else {
        assert(matching_retained(filter, r) =~= Seq::<MessageView>::empty());
    }
}

/// A subscription made under the next identifier is the one that
/// identifier names (so unsubscribing by it removes that subscription),
/// as long as the identifier counter has not wrapped.
pub proof fn lemma_new_subscription_found(v: BrokerView, s: SubView)
    requires
        broker_wf(v),
        !v.ids_wrapped,
        s.id == v.next_id,
    ensures
        find_sub(v.subs.push(s), v.next_id) == Some(v.subs.len() as int),
{
    let n = v.subs.push(s);
    assert forall|j: int| 0 <= j < v.subs.len() implies n[j].id != v.next_id by {
        assert(n[j] == v.subs[j]);
        assert(v.subs[j].id < v.next_id);
    }
    lemma_find_sub_first(n, v.next_id, v.subs.len() as int);
}

/// Every message a new subscription is handed from the retained list
/// carries the retained flag.
pub proof fn lemma_replayed_messages_are_retained(v: BrokerView, filter: Seq<char>)
    requires
        broker_wf(v),
    ensures
        forall|k: int|
            0 <= k < matching_retained(filter, v.retained).len() ==> (
            #[trigger] matching_retained(filter, v.retained)[k]).retained,
{
    lemma_matching_keeps_flag(filter, v.retained);
}

proof fn lemma_matching_keeps_flag(filter: Seq<char>, r: Seq<MessageView>)
    requires
        forall|i: int| 0 <= i < r.len() ==> (#[trigger] r[i]).retained,
    ensures
        forall|k: int|
            0 <= k < matching_retained(filter, r).len() ==> (#[trigger] matching_retained(
                filter,
                r,
            )[k]).retained,
    decreases r.len(),
{
    if r.len() > 0 {
        let p = r.drop_last();
        assert forall|i: int| 0 <= i < p.len() implies (#[trigger] p[i]).retained by {
            assert(p[i] == r[i]);
        }
        lemma_matching_keeps_flag(filter, p);
        let m = matching_retained(filter, r);
        let mp = matching_retained(filter, p);
        assert(r.last() == r[r.len() - 1]);
        assert forall|k: int| 0 <= k < m.len() implies (#[trigger] m[k]).retained by {
            if k < mp.len() {
                assert(m[k] == mp[k]);
            }
        }
    }
}

} // verus!
