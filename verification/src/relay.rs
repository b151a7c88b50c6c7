//! RELAY protocol types: the universal message envelope, protocol ids,
//! sentinel errors, subscriber options and the execution context.

use std::time::{Duration, Instant, SystemTime, UNIX_EPOCH};
use vstd::prelude::*;

use crate::text::{decimal, signed_decimal};

verus! {

/// Protocol identifiers per RELAY spec §3; the integer of each is given by
/// [`Protocol::code`].
#[derive(Clone, Copy, Debug, PartialEq, Eq, Structural)]
pub enum Protocol {
    Can,
    Dds,
    Lin,
    Mqtt,
    Rcp,
    Someip,
}

impl Protocol {
    /// The RELAY protocol integer: CAN 1, DDS 2, LIN 3, MQTT 4, RCP 5,
    /// SOMEIP 6.
    pub open spec fn spec_code(self) -> i32 {
        match self {
            Protocol::Can => 1,
            Protocol::Dds => 2,
            Protocol::Lin => 3,
            Protocol::Mqtt => 4,
            Protocol::Rcp => 5,
            Protocol::Someip => 6,
        }
    }

    /// The protocol with RELAY integer `v`, if any.
    pub open spec fn spec_from_code(v: i32) -> Option<Protocol> {
        if v == 1 {
            Some(Protocol::Can)
        } else if v == 2 {
            Some(Protocol::Dds)
        } else if v == 3 {
            Some(Protocol::Lin)
        } else if v == 4 {
            Some(Protocol::Mqtt)
        } else if v == 5 {
            Some(Protocol::Rcp)
        } else if v == 6 {
            Some(Protocol::Someip)
        } else {
            None
        }
    }

    /// The upper-case name: `CAN`, `DDS`, `LIN`, `MQTT`, `RCP`, `SOMEIP`.
    pub open spec fn spec_name(self) -> Seq<char> {
        match self {
            Protocol::Can => seq!['C', 'A', 'N'],
            Protocol::Dds => seq!['D', 'D', 'S'],
            Protocol::Lin => seq!['L', 'I', 'N'],
            Protocol::Mqtt => seq!['M', 'Q', 'T', 'T'],
            Protocol::Rcp => seq!['R', 'C', 'P'],
            Protocol::Someip => seq!['S', 'O', 'M', 'E', 'I', 'P'],
        }
    }

    /// The RELAY protocol integer.
    pub fn code(self) -> (r: i32)
        ensures
            r == self.spec_code(),
    {
        match self {
            Protocol::Can => 1,
            Protocol::Dds => 2,
            Protocol::Lin => 3,
            Protocol::Mqtt => 4,
            Protocol::Rcp => 5,
            Protocol::Someip => 6,
        }
    }

    /// The protocol with RELAY integer `v`; `None` outside 1..=6.
    pub fn from_code(v: i32) -> (r: Option<Protocol>)
        ensures
            r == Self::spec_from_code(v),
    {
        if v == 1 {
            Some(Protocol::Can)
        } else if v == 2 {
            Some(Protocol::Dds)
        } else if v == 3 {
            Some(Protocol::Lin)
        } else if v == 4 {
            Some(Protocol::Mqtt)
        } else if v == 5 {
            Some(Protocol::Rcp)
        } else if v == 6 {
            Some(Protocol::Someip)
        } else {
            None
        }
    }

    /// The upper-case name, as `Display` shows it.
    pub fn to_string(&self) -> (r: String)
        ensures
            r@ == self.spec_name(),
    {
        let r = match self {
            Protocol::Can => crate::text::owned("CAN"),
            Protocol::Dds => crate::text::owned("DDS"),
            Protocol::Lin => crate::text::owned("LIN"),
            Protocol::Mqtt => crate::text::owned("MQTT"),
            Protocol::Rcp => crate::text::owned("RCP"),
            Protocol::Someip => crate::text::owned("SOMEIP"),
        };
        proof {
            reveal_strlit("CAN");
            reveal_strlit("DDS");
            reveal_strlit("LIN");
            reveal_strlit("MQTT");
            reveal_strlit("RCP");
            reveal_strlit("SOMEIP");
        }
        r
    }
}

/// Every protocol's integer names that protocol, and only the integers
/// 1..=6 name one.
pub proof fn lemma_protocol_code_roundtrip(p: Protocol, v: i32)
    ensures
        Protocol::spec_from_code(p.spec_code()) == Some(p),
        Protocol::spec_from_code(v) matches Some(q) ==> q.spec_code() == v,
        Protocol::spec_from_code(v) is Some <==> 1 <= v <= 6,
{
}

impl From<Protocol> for i32 {
    fn from(p: Protocol) -> i32 {
        p.code()
    }
}

impl vstd::std_specs::convert::FromSpecImpl<Protocol> for i32 {
    open spec fn obeys_from_spec() -> bool {
        true
    }

    open spec fn from_spec(p: Protocol) -> i32 {
        p.spec_code()
    }
}

/// The text of the error for an integer that names no protocol:
/// `unknown protocol: <value>`.
pub open spec fn unknown_protocol_text(v: i32) -> Seq<char> {
    seq![
        'u', 'n', 'k', 'n', 'o', 'w', 'n', ' ', 'p', 'r', 'o', 't', 'o', 'c', 'o', 'l', ':', ' ',
    ] + crate::text::signed_decimal(v as int)
}

impl TryFrom<i32> for Protocol {
    type Error = String;

    /// Codes 1 to 6 give their protocol; any other integer is refused with
    /// the text `unknown protocol: <value>`.
    fn try_from(v: i32) -> (r: Result<Protocol, String>)
        ensures
            r matches Ok(p) ==> Protocol::spec_from_code(v) == Some(p),
            r matches Err(e) ==> (Protocol::spec_from_code(v) is None && e@
                == unknown_protocol_text(v)),
            r is Ok <==> 1 <= v <= 6,
    {
        match Protocol::from_code(v) {
            Some(p) => Ok(p),
            None => {
                let mut s = crate::text::owned("unknown protocol: ");
                proof {
                    reveal_strlit("unknown protocol: ");
                }
                crate::text::push_signed_decimal(&mut s, v as i64);
                Err(s)
            },
        }
    }
}

impl vstd::std_specs::convert::TryFromSpecImpl<i32> for Protocol {
    /// The error is a freshly built `String`, which no spec value can stand
    /// for; what `try_from` returns is stated on the impl itself.
    open spec fn obeys_try_from_spec() -> bool {
        false
    }

    open spec fn try_from_spec(v: i32) -> Result<Protocol, String> {
        match Protocol::spec_from_code(v) {
            Some(p) => Ok(p),
            None => Err(choose|e: String| e@ == unknown_protocol_text(v)),
        }
    }
}

/// Semantic version triplet per RELAY spec §4.1.
#[derive(Clone, Copy, Debug, PartialEq, Eq, Structural)]
pub struct Version {
    pub major: i32,
    pub minor: i32,
    pub patch: i32,
}

impl Default for Version {
    fn default() -> (r: Self)
        ensures
            r == (Version { major: 0, minor: 0, patch: 0 }),
    {
        Version { major: 0, minor: 0, patch: 0 }
    }
}

impl Version {
    /// `major.minor.patch`, as `Display` shows it.
    pub fn to_string(&self) -> (r: String)
        ensures
            r@ == signed_decimal(self.major as int) + seq!['.'] + signed_decimal(
                self.minor as int,
            ) + seq!['.'] + signed_decimal(self.patch as int),
    {
        let mut s = String::new();
        crate::text::push_signed_decimal(&mut s, self.major as i64);
        crate::text::push_char(&mut s, '.');
        crate::text::push_signed_decimal(&mut s, self.minor as i64);
        crate::text::push_char(&mut s, '.');
        crate::text::push_signed_decimal(&mut s, self.patch as i64);
        assert(s@ =~= signed_decimal(self.major as int) + seq!['.'] + signed_decimal(
            self.minor as int,
        ) + seq!['.'] + signed_decimal(self.patch as int));
        s
    }
}

/// A point in time as seconds and nanoseconds since the Unix epoch (UTC).
#[derive(Clone, Copy, Debug, PartialEq, Eq, Structural)]
pub struct Timestamp {
    pub secs: i64,
    pub nanos: u32,
}

impl Timestamp {
    /// The Unix epoch, 1970-01-01T00:00:00Z.
    pub open spec fn epoch_spec() -> Timestamp {
        Timestamp { secs: 0, nanos: 0 }
    }

    /// The Unix epoch, 1970-01-01T00:00:00Z.
    pub fn epoch() -> (r: Timestamp)
        ensures
            r == Timestamp::epoch_spec(),
    {
        Timestamp { secs: 0, nanos: 0 }
    }

    /// The current UTC time, from the system clock. A clock set before the
    /// epoch gives a negative timestamp; seconds beyond the range of `i64`
    /// are clamped to it.
    pub(crate) fn now() -> (r: Timestamp)
        ensures
            r.nanos < 1_000_000_000,
            is_clock_reading(r),
    {
        match since_epoch(system_now()) {
            Ok(d) => {
                let r = offset_timestamp(true, duration_secs(d), duration_subsec_nanos(d));
                assert(r == clock_timestamp(true, d));
                r
            },
            Err(d) => {
                let r = offset_timestamp(false, duration_secs(d), duration_subsec_nanos(d));
                assert(r == clock_timestamp(false, d));
                r
            },
        }
    }
}

/// The timestamp for a clock that reads the duration `d` after the Unix
/// epoch (when `after`) or before it: its whole seconds and sub-second
/// nanoseconds, as `Duration::as_secs` and `Duration::subsec_nanos` give
/// them.
pub open spec fn clock_timestamp(after: bool, d: Duration) -> Timestamp {
    spec_offset_timestamp(after, spec_duration_secs(d), spec_duration_subsec_nanos(d))
}

/// `t` was made from a reading of the system clock: it is the timestamp of
/// some duration the clock measured from the Unix epoch, not a value fixed
/// in advance.
pub open spec fn is_clock_reading(t: Timestamp) -> bool {
    exists|after: bool, d: Duration| t == #[trigger] clock_timestamp(after, d)
}

/// The largest number of seconds a [`Timestamp`] holds.
pub open spec fn clamp_secs(secs: u64) -> int {
    if secs > i64::MAX {
        i64::MAX as int
    } else {
        secs as int
    }
}

/// The timestamp `secs` seconds and `nanos` nanoseconds (`nanos` below one
/// billion) after the Unix epoch when `after`, before it otherwise; a time
/// before the epoch keeps its sub-second part nonnegative by borrowing one
/// second. Seconds beyond the range of `i64` are clamped.
pub open spec fn spec_offset_timestamp(after: bool, secs: u64, nanos: u32) -> Timestamp {
    if after {
        Timestamp { secs: clamp_secs(secs) as i64, nanos }
    } else if nanos == 0 {
        Timestamp { secs: (-clamp_secs(secs)) as i64, nanos: 0 }
    } else {
        Timestamp { secs: (-clamp_secs(secs) - 1) as i64, nanos: (1_000_000_000 - nanos) as u32 }
    }
}

/// See [`spec_offset_timestamp`].
pub fn offset_timestamp(after: bool, secs: u64, nanos: u32) -> (r: Timestamp)
    requires
        nanos < 1_000_000_000,
    ensures
        r == spec_offset_timestamp(after, secs, nanos),
        r.nanos < 1_000_000_000,
{
    let s: i64 = if secs > 9_223_372_036_854_775_807u64 {
        9_223_372_036_854_775_807i64
    } else {
        secs as i64
    };
    if after {
        Timestamp { secs: s, nanos }
    } else if nanos == 0 {
        Timestamp { secs: -s, nanos: 0 }
    } else {
        Timestamp { secs: -s - 1, nanos: 1_000_000_000 - nanos }
    }
}

/// A reading of the system clock, `std::time::SystemTime`.
#[verifier::external_type_specification]
#[verifier::external_body]
pub struct ExSystemTime(SystemTime);

/// The system clock's reading, through `SystemTime::now`; nothing is
/// promised of it.
#[verifier::external_body]
fn system_now() -> SystemTime {
    SystemTime::now()
}

/// `SystemTime::duration_since(UNIX_EPOCH)`: how far `t` lies after the
/// Unix epoch, or, in `Err`, how far before it (the duration that std's
/// error carries). The outcome depends on the clock, so nothing is
/// promised of it.
#[verifier::external_body]
fn since_epoch(t: SystemTime) -> Result<Duration, Duration> {
    match t.duration_since(UNIX_EPOCH) {
        Ok(d) => Ok(d),
        Err(e) => Err(e.duration()),
    }
}

/// `Duration::as_secs`: the whole seconds of `d`.
pub uninterp spec fn spec_duration_secs(d: Duration) -> u64;

/// The whole seconds of `d`, through `Duration::as_secs`, a function of `d`.
#[verifier::external_body]
fn duration_secs(d: Duration) -> (r: u64)
    ensures
        r == spec_duration_secs(d),
{
    d.as_secs()
}

/// `Duration::subsec_nanos`: the fractional part of `d` in nanoseconds.
pub uninterp spec fn spec_duration_subsec_nanos(d: Duration) -> u32;

/// The fractional part of `d` in nanoseconds, through
/// `Duration::subsec_nanos`, a function of `d` that std documents as always
/// below one billion.
#[verifier::external_body]
fn duration_subsec_nanos(d: Duration) -> (r: u32)
    ensures
        r == spec_duration_subsec_nanos(d),
        r < 1_000_000_000,
{
    d.subsec_nanos()
}

/// A string-to-string map with distinct keys, as RELAY message metadata.
pub struct MetaMap {
    entries: Vec<(String, String)>,
}

/// The map that a list of distinct-key entries stands for.
pub open spec fn entries_map(s: Seq<(String, String)>) -> Map<Seq<char>, Seq<char>>
    decreases s.len(),
{
    if s.len() == 0 {
        Map::empty()
    } else {
        entries_map(s.drop_last()).insert(s.last().0@, s.last().1@)
    }
}

/// The keys of `s` are pairwise distinct.
pub open spec fn distinct_keys(s: Seq<(String, String)>) -> bool {
    forall|i: int, j: int| 0 <= i < j < s.len() ==> s[i].0@ != s[j].0@
}

/// With distinct keys, the map holds exactly the listed entries.
proof fn lemma_entries_map(s: Seq<(String, String)>)
    requires
        distinct_keys(s),
    ensures
        forall|k: Seq<char>|
            #![trigger entries_map(s).contains_key(k)]
            entries_map(s).contains_key(k) <==> exists|i: int| 0 <= i < s.len() && s[i].0@ == k,
        forall|i: int|
            0 <= i < s.len() ==> entries_map(s).contains_key(#[trigger] s[i].0@) && entries_map(
                s,
            )[s[i].0@] == s[i].1@,
    decreases s.len(),
{
    if s.len() > 0 {
        let p = s.drop_last();
        assert(distinct_keys(p));
        lemma_entries_map(p);
        assert forall|k: Seq<char>| #[trigger]
            entries_map(s).contains_key(k) implies exists|i: int|
            0 <= i < s.len() && s[i].0@ == k by {
            if k != s.last().0@ {
                assert(entries_map(p).contains_key(k));
                let i = choose|i: int| 0 <= i < p.len() && p[i].0@ == k;
                assert(s[i] == p[i]);
            } else {
                assert(s[s.len() - 1].0@ == k);
            }
        }
        assert forall|i: int| 0 <= i < s.len() implies entries_map(s).contains_key(
            #[trigger] s[i].0@,
        ) && entries_map(s)[s[i].0@] == s[i].1@ by {
            if i < s.len() - 1 {
                assert(s[i] == p[i]);
                assert(s[i].0@ != s[s.len() - 1].0@);
            }
        }
        assert forall|k: Seq<char>|
            exists|i: int| 0 <= i < s.len() && s[i].0@ == k implies #[trigger] entries_map(
                s,
            ).contains_key(k) by {
            let i = choose|i: int| 0 <= i < s.len() && s[i].0@ == k;
            if i < s.len() - 1 {
                assert(s[i] == p[i]);
                assert(entries_map(p).contains_key(p[i].0@));
            }
        }
    }
}

impl View for MetaMap {
    type V = Map<Seq<char>, Seq<char>>;

    closed spec fn view(&self) -> Map<Seq<char>, Seq<char>> {
        entries_map(self.entries@)
    }
}

impl MetaMap {
    #[verifier::type_invariant]
    spec fn keys_distinct(self) -> bool {
        distinct_keys(self.entries@)
    }

    /// An empty map.
    pub fn new() -> (r: Self)
        ensures
            r@ == Map::<Seq<char>, Seq<char>>::empty(),
    {
        MetaMap { entries: Vec::new() }
    }

    /// The number of entries.
    pub fn len(&self) -> (r: usize)
        ensures
            r == self@.dom().len(),
    {
        proof {
            use_type_invariant(self);
            lemma_entries_map(self.entries@);
            lemma_map_len(self.entries@);
        }
        self.entries.len()
    }

    /// Whether the map has no entries.
    pub fn is_empty(&self) -> (r: bool)
        ensures
            r == (self@.dom().len() == 0),
    {
        self.len() == 0
    }

    /// The position of the entry with key `key`.
    fn find(&self, key: &str) -> (r: Option<usize>)
        ensures
            r matches Some(i) ==> i < self.entries@.len() && self.entries@[i as int].0@ == key@,
            r is None ==> forall|i: int|
                0 <= i < self.entries@.len() ==> self.entries@[i].0@ != key@,
    {
        let mut i: usize = 0;
        while i < self.entries.len()
            invariant
                0 <= i <= self.entries@.len(),
                forall|j: int| 0 <= j < i ==> self.entries@[j].0@ != key@,
            decreases self.entries@.len() - i,
        {
            if crate::text::str_eq(self.entries[i].0.as_str(), key) {
                return Some(i);
            }
            i = i + 1;
        }
        None
    }

    /// The value stored under `key`, if any.
    pub fn get(&self, key: &str) -> (r: Option<&String>)
        ensures
            self@.contains_key(key@) ==> (r matches Some(v) && v@ == self@[key@]),
            !self@.contains_key(key@) ==> r is None,
    {
        proof {
            use_type_invariant(self);
            lemma_entries_map(self.entries@);
        }
        match self.find(key) {
            Some(i) => Some(&self.entries[i].1),
            None => None,
        }
    }

    /// Whether the map has an entry under `key`.
    pub fn contains_key(&self, key: &str) -> (r: bool)
        ensures
            r == self@.contains_key(key@),
    {
        self.get(key).is_some()
    }

    /// Store `value` under `key`, replacing any value stored there before.
    pub fn insert(&mut self, key: String, value: String)
        ensures
            final(self)@ == old(self)@.insert(key@, value@),
    {
        proof {
            use_type_invariant(&*self);
            lemma_entries_map(self.entries@);
        }
        let ghost old_entries = self.entries@;
        let found = self.find(key.as_str());
        let mut entries = Vec::new();
        std::mem::swap(&mut entries, &mut self.entries);
        match found {
            Some(i) => {
                entries.set(i, (key, value));
            },
            None => {
                entries.push((key, value));
            },
        }
        proof {
            let s = entries@;
            assert(distinct_keys(s)) by {
                assert forall|a: int, b: int| 0 <= a < b < s.len() implies s[a].0@ != s[b].0@ by {
                    if found is Some {
                        let i = found->0 as int;
                        if a != i && b != i {
                            assert(s[a] == old_entries[a] && s[b] == old_entries[b]);
                        } else if a == i {
                            assert(s[b] == old_entries[b]);
                            assert(old_entries[a].0@ != old_entries[b].0@);
                        } else {
                            assert(s[a] == old_entries[a]);
                            assert(old_entries[a].0@ != old_entries[b].0@);
                        }
                    } else {
                        if b < old_entries.len() {
                            assert(s[a] == old_entries[a] && s[b] == old_entries[b]);
                        } else {
                            assert(s[a] == old_entries[a]);
                        }
                    }
                }
            }
            lemma_entries_map(s);
            assert(entries_map(s) =~= entries_map(old_entries).insert(key@, value@)) by {
                assert forall|k: Seq<char>| #[trigger]
                    entries_map(s).contains_key(k) == entries_map(old_entries).insert(
                        key@,
                        value@,
                    ).contains_key(k) by {
                    if entries_map(s).contains_key(k) {
                        let j = choose|j: int| 0 <= j < s.len() && s[j].0@ == k;
                        if k != key@ {
                            assert(s[j] == old_entries[j]);
                        }
                    }
                    if k != key@ && entries_map(old_entries).contains_key(k) {
                        let j = choose|j: int|
                            0 <= j < old_entries.len() && old_entries[j].0@ == k;
                        if found is Some {
                            assert(j != found->0);
                        }
                        assert(s[j] == old_entries[j]);
                    }
                    if k == key@ {
                        if found is Some {
                            assert(s[found->0 as int].0@ == k);
                        } else {
                            assert(s[s.len() - 1].0@ == k);
                        }
                    }
                }
                assert forall|k: Seq<char>| #[trigger]
                    entries_map(s).contains_key(k) implies entries_map(s)[k] == entries_map(
                    old_entries,
                ).insert(key@, value@)[k] by {
                    let j = choose|j: int| 0 <= j < s.len() && s[j].0@ == k;
                    if k != key@ {
                        assert(s[j] == old_entries[j]);
                    } else {
                        if found is Some {
                            assert(j == found->0);
                        } else {
                            assert(j == s.len() - 1);
                        }
                    }
                }
            }
        }
        self.entries = entries;
    }

    /// The entries, in the order they were first inserted.
    pub fn entries(&self) -> (r: &Vec<(String, String)>)
        ensures
            entries_map(r@) == self@,
            distinct_keys(r@),
    {
        proof {
            use_type_invariant(self);
        }
        &self.entries
    }
}

/// With distinct keys, the map has one key per entry.
proof fn lemma_map_len(s: Seq<(String, String)>)
    requires
        distinct_keys(s),
    ensures
        entries_map(s).dom().len() == s.len(),
        entries_map(s).dom().finite(),
    decreases s.len(),
{
    if s.len() > 0 {
        let p = s.drop_last();
        assert(distinct_keys(p));
        lemma_map_len(p);
        lemma_entries_map(p);
        assert(!entries_map(p).contains_key(s.last().0@)) by {
            if entries_map(p).contains_key(s.last().0@) {
                let i = choose|i: int| 0 <= i < p.len() && p[i].0@ == s.last().0@;
                assert(s[i] == p[i]);
            }
        }
    }
}

/// Universal message envelope per RELAY spec §4.
pub struct Message {
    pub protocol: Protocol,
    pub version: Version,
    pub id: String,
    pub payload: Vec<u8>,
    pub timestamp: Timestamp,
    pub seq: u64,
    pub meta: MetaMap,
}

impl Message {
    /// An envelope for `protocol` with the given id and payload, version
    /// 0.0.0, sequence 0, no metadata, stamped with the current time.
    pub fn new(protocol: Protocol, id: &str, payload: Vec<u8>) -> (r: Self)
        ensures
            r.protocol == protocol,
            r.version == (Version { major: 0, minor: 0, patch: 0 }),
            r.id@ == id@,
            r.payload@ == payload@,
            r.seq == 0,
            r.meta@ == Map::<Seq<char>, Seq<char>>::empty(),
            r.timestamp.nanos < 1_000_000_000,
            is_clock_reading(r.timestamp),
    {
        Message {
            protocol,
            version: Version::default(),
            id: crate::text::owned(id),
            payload,
            timestamp: Timestamp::now(),
            seq: 0,
            meta: MetaMap::new(),
        }
    }
}

/// Back-pressure policy for subscriber channels per RELAY spec §14.
#[derive(Clone, Copy, Debug, PartialEq, Eq, Structural)]
pub enum BackPressurePolicy {
    /// Drop the arriving message when the channel is full (default).
    DropNewest,
    /// Drop the oldest buffered message to make room.
    DropOldest,
    /// Block until space is available.
    Block,
}

impl Default for BackPressurePolicy {
    fn default() -> (r: Self)
        ensures
            r == BackPressurePolicy::DropNewest,
    {
        BackPressurePolicy::DropNewest
    }
}

/// Options for creating a RELAY-level subscriber.
#[derive(Clone, Copy, Debug, PartialEq, Eq, Structural)]
pub struct SubscriberOptions {
    pub chan_depth: usize,
    pub back_pressure: BackPressurePolicy,
}

impl Default for SubscriberOptions {
    fn default() -> (r: Self)
        ensures
            r == (SubscriberOptions {
                chan_depth: 0,
                back_pressure: BackPressurePolicy::DropNewest,
            }),
    {
        SubscriberOptions { chan_depth: 0, back_pressure: BackPressurePolicy::DropNewest }
    }
}

impl SubscriberOptions {
    /// The channel depth to use: the configured one, or `default` when it
    /// is 0.
    pub fn chan_depth(&self, default: usize) -> (r: usize)
        ensures
            r == if self.chan_depth > 0 {
                self.chan_depth
            } else {
                default
            },
    {
        if self.chan_depth > 0 {
            self.chan_depth
        } else {
            default
        }
    }
}

/// Sentinel error values per RELAY spec §5.
#[derive(Clone, Copy, Debug, PartialEq, Eq, Structural)]
pub enum Error {
    Closed,
    NotConnected,
    Timeout,
    PayloadTooLarge,
}

impl Error {
    /// `relay: closed`, `relay: not connected`, `relay: timeout` or
    /// `relay: payload too large`.
    pub fn to_string(&self) -> (s: String)
        ensures
            *self == Error::Closed ==> s@ == "relay: closed"@,
            *self == Error::NotConnected ==> s@ == "relay: not connected"@,
            *self == Error::Timeout ==> s@ == "relay: timeout"@,
            *self == Error::PayloadTooLarge ==> s@ == "relay: payload too large"@,
    {
        let r = match self {
            Error::Closed => "relay: closed",
            Error::NotConnected => "relay: not connected",
            Error::Timeout => "relay: timeout",
            Error::PayloadTooLarge => "relay: payload too large",
        };
        crate::text::owned(r)
    }
}

/// A point of the monotonic clock, `std::time::Instant`.
#[verifier::external_type_specification]
#[verifier::external_body]
pub struct ExInstant(Instant);

/// `std::time::Instant::checked_add`: the instant `d` after `start`, if it
/// can be represented.
pub uninterp spec fn spec_instant_after(start: Instant, d: Duration) -> Option<Instant>;

/// `start >= deadline` for two instants.
pub uninterp spec fn spec_instant_reached(now: Instant, deadline: Instant) -> bool;

/// The current instant of the monotonic clock, through `Instant::now`;
/// nothing is promised of it.
#[verifier::external_body]
fn instant_now() -> Instant {
    Instant::now()
}

/// `start + d` through `Instant::checked_add`, a function of its arguments.
#[verifier::external_body]
fn instant_after(start: Instant, d: Duration) -> (r: Option<Instant>)
    ensures
        r == spec_instant_after(start, d),
{
    start.checked_add(d)
}

/// `now >= deadline` through `Instant`'s ordering, a function of its
/// arguments.
#[verifier::external_body]
fn instant_reached(now: &Instant, deadline: &Instant) -> (r: bool)
    ensures
        r == spec_instant_reached(*now, *deadline),
{
    *now >= *deadline
}

/// Execution context: an optional deadline after which an operation should
/// give up.
#[derive(Clone, Copy, Debug)]
pub struct Context {
    deadline: Option<Instant>,
}

impl Context {
    /// The deadline, if any.
    pub closed spec fn spec_deadline(&self) -> Option<Instant> {
        self.deadline
    }

    /// A context without a deadline: never done.
    pub fn background() -> (r: Self)
        ensures
            r.spec_deadline() is None,
    {
        Context { deadline: None }
    }

    /// A context whose deadline is `timeout` from now (none if that instant
    /// cannot be represented).
    pub fn with_timeout(timeout: Duration) -> (r: Self)
        ensures
            exists|now: Instant| r.spec_deadline() == spec_instant_after(now, timeout),
    {
        let now = instant_now();
        Context { deadline: instant_after(now, timeout) }
    }

    /// Whether the deadline has passed; always `false` without a deadline.
    pub fn done(&self) -> (r: bool)
        ensures
            self.spec_deadline() is None ==> !r,
            self.spec_deadline() matches Some(d) ==> exists|now: Instant|
                r == spec_instant_reached(now, d),
    {
        match &self.deadline {
            Some(d) => {
                let now = instant_now();
                instant_reached(&now, d)
            },
            None => false,
        }
    }
}

impl Default for Context {
    fn default() -> (r: Self)
        ensures
            r.spec_deadline() is None,
    {
        Context::background()
    }
}

} // verus!
