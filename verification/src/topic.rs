//! MQTT topic wildcard matching per MQTT §4.7.
//!
//! Topics and filters are compared as UTF-8 byte strings. The level
//! separator `/`, the wildcards `+` and `#` and the system prefix `$` are all
//! ASCII, so a byte-level split coincides with the character-level one.

use vstd::prelude::*;
use vstd::string::StringSliceAdditionalSpecFns;

verus! {

/// `/`, the topic level separator.
pub const SLASH: u8 = 0x2F;

/// `+`, the single-level wildcard.
pub const PLUS: u8 = 0x2B;

/// `#`, the multi-level wildcard.
pub const HASH: u8 = 0x23;

/// `$`, the prefix of system topics.
pub const DOLLAR: u8 = 0x24;

/// Split `s` at every `/`. There is always at least one level; an empty
/// string has a single empty level, and `a//b` has three levels.
pub open spec fn split_levels(s: Seq<u8>) -> Seq<Seq<u8>>
    decreases s.len(),
{
    if s.len() == 0 {
        seq![Seq::<u8>::empty()]
    } else {
        let r = split_levels(s.drop_last());
        if s.last() == SLASH {
            r.push(Seq::<u8>::empty())
        } else {
            r.update(r.len() - 1, r.last().push(s.last()))
        }
    }
}

/// A topic whose first character is `$` (MQTT §4.7.2).
pub open spec fn is_system_topic(t: Seq<u8>) -> bool {
    t.len() > 0 && t[0] == DOLLAR
}

/// One filter level against one topic level: `+` matches any single level,
/// except the first level of a system topic; anything else matches itself.
pub open spec fn level_matches(f: Seq<u8>, t: Seq<u8>, first: bool, system: bool) -> bool {
    if f == seq![PLUS] {
        !(first && system)
    } else {
        f == t
    }
}

/// Every filter level matches the topic level at the same position, and the
/// topic has at least as many levels as the filter.
pub open spec fn levels_match_prefix(fl: Seq<Seq<u8>>, tl: Seq<Seq<u8>>, system: bool) -> bool {
    &&& fl.len() <= tl.len()
    &&& forall|i: int| 0 <= i < fl.len() ==> level_matches(#[trigger] fl[i], tl[i], i == 0, system)
}

/// Filter and topic have the same number of levels and match level by level.
pub open spec fn levels_match(fl: Seq<Seq<u8>>, tl: Seq<Seq<u8>>, system: bool) -> bool {
    fl.len() == tl.len() && levels_match_prefix(fl, tl, system)
}

/// The filter ends with the level separator followed by `#`.
pub open spec fn ends_with_slash_hash(f: Seq<u8>) -> bool {
    f.len() >= 2 && f[f.len() - 2] == SLASH && f[f.len() - 1] == HASH
}

/// Whether `filter` matches `topic` (MQTT §4.7), both as UTF-8 bytes.
///
/// - an empty filter or topic matches nothing (§4.7.3);
/// - identical strings always match;
/// - `#` alone matches every topic that is not a system topic;
/// - `F/#` matches a topic whose leading levels match the levels of `F`
///   (`+` in `F` standing for one level), including the topic equal to `F`;
/// - otherwise the levels must correspond one to one, `+` matching any one
///   level except the first level of a system topic.
pub open spec fn spec_match_topic(filter: Seq<u8>, topic: Seq<u8>) -> bool {
    if filter.len() == 0 || topic.len() == 0 {
        false
    } else if filter == topic {
        true
    } else if filter == seq![HASH] {
        !is_system_topic(topic)
    } else if ends_with_slash_hash(filter) {
        levels_match_prefix(
            split_levels(filter.subrange(0, filter.len() - 2)),
            split_levels(topic),
            is_system_topic(topic),
        )
    } else {
        levels_match(split_levels(filter), split_levels(topic), is_system_topic(topic))
    }
}

/// Byte-wise equality of two slices.
pub fn bytes_eq(a: &[u8], b: &[u8]) -> (r: bool)
    ensures
        r == (a@ == b@),
{
    if a.len() != b.len() {
        return false;
    }
    let mut i: usize = 0;
    while i < a.len()
        invariant
            a.len() == b.len(),
            0 <= i <= a.len(),
            forall|j: int| 0 <= j < i ==> a@[j] == b@[j],
        decreases a.len() - i,
    {
        if a[i] != b[i] {
            return false;
        }
        i = i + 1;
    }
    assert(a@ =~= b@);
    true
}

/// The levels of `s`, split at every `/`.
pub fn split_topic_levels(s: &[u8]) -> (r: Vec<Vec<u8>>)
    ensures
        r@.len() == split_levels(s@).len(),
        forall|i: int| 0 <= i < r@.len() ==> (#[trigger] r@[i])@ == split_levels(s@)[i],
{
    let mut done: Vec<Vec<u8>> = Vec::new();
    let mut cur: Vec<u8> = Vec::new();
    let mut i: usize = 0;
    assert(s@.subrange(0, 0) =~= Seq::<u8>::empty());
    while i < s.len()
        invariant
            0 <= i <= s.len(),
            done@.len() + 1 == split_levels(s@.subrange(0, i as int)).len(),
            forall|j: int|
                0 <= j < done@.len() ==> (#[trigger] done@[j])@ == split_levels(
                    s@.subrange(0, i as int),
                )[j],
            cur@ == split_levels(s@.subrange(0, i as int)).last(),
        decreases s.len() - i,
    {
        let ghost prev = s@.subrange(0, i as int);
        assert(s@.subrange(0, i + 1).drop_last() =~= prev);
        let b = s[i];
        if b == SLASH {
            let finished = cur;
            done.push(finished);
            cur = Vec::new();
        } else {
            cur.push(b);
        }
        i = i + 1;
    }
    assert(s@.subrange(0, s.len() as int) =~= s@);
    done.push(cur);
    done
}

/// Reports whether `filter` matches `topic` per MQTT spec §4.7.
///
/// `filter` may contain `+` (single-level wildcard) and `#` (multi-level
/// wildcard, last). Topics beginning with `$` are not matched by a wildcard
/// at the first level (§4.7.2). `a/+/#` expands its `+` as well as its `#`.
pub fn match_topic(filter: &str, topic: &str) -> (r: bool)
    ensures
        r == spec_match_topic(filter.spec_bytes(), topic.spec_bytes()),
{
    let f = filter.as_bytes();
    let t = topic.as_bytes();
    if f.len() == 0 || t.len() == 0 {
        return false;
    }
    if bytes_eq(f, t) {
        return true;
    }
    let system = t[0] == DOLLAR;
    if f.len() == 1 && f[0] == HASH {
        assert(f@ =~= seq![HASH]);
        return !system;
    }
    assert(f@ != seq![HASH]);
    let with_hash_suffix = f.len() >= 2 && f[f.len() - 2] == SLASH && f[f.len() - 1] == HASH;
    let f_levels = if with_hash_suffix {
        let prefix = slice_prefix(f, f.len() - 2);
        split_topic_levels(prefix)
    } else {
        split_topic_levels(f)
    };
    let t_levels = split_topic_levels(t);
    if with_hash_suffix {
        if f_levels.len() > t_levels.len() {
            return false;
        }
    } else if f_levels.len() != t_levels.len() {
        return false;
    }
    let ghost fs = if with_hash_suffix {
        split_levels(f@.subrange(0, f@.len() - 2))
    } else {
        split_levels(f@)
    };
    let ghost ts = split_levels(t@);
    let mut i: usize = 0;
    while i < f_levels.len()
        invariant
            f_levels@.len() <= t_levels@.len(),
            f_levels@.len() == fs.len(),
            t_levels@.len() == ts.len(),
            forall|j: int| 0 <= j < f_levels@.len() ==> (#[trigger] f_levels@[j])@ == fs[j],
            forall|j: int| 0 <= j < t_levels@.len() ==> (#[trigger] t_levels@[j])@ == ts[j],
            system == is_system_topic(t@),
            f@ == filter.spec_bytes(),
            t@ == topic.spec_bytes(),
            f@.len() > 0 && t@.len() > 0,
            f@ != t@,
            f@ != seq![HASH],
            with_hash_suffix == ends_with_slash_hash(f@),
            fs == (if with_hash_suffix {
                split_levels(f@.subrange(0, f@.len() - 2))
            } else {
                split_levels(f@)
            }),
            ts == split_levels(t@),
            with_hash_suffix || f_levels@.len() == t_levels@.len(),
            0 <= i <= f_levels@.len(),
            forall|j: int| 0 <= j < i ==> level_matches(#[trigger] fs[j], ts[j], j == 0, system),
        decreases f_levels@.len() - i,
    {
        let fl = &f_levels[i];
        let tl = &t_levels[i];
        let is_plus = fl.len() == 1 && fl[0] == PLUS;
        proof {
            assert(fl@ == fs[i as int]);
            assert(tl@ == ts[i as int]);
            if is_plus {
                assert(fl@ =~= seq![PLUS]);
            } else {
                assert(fl@ != seq![PLUS]);
            }
        }
        if is_plus {
            if i == 0 && system {
                assert(!level_matches(fs[i as int], ts[i as int], i == 0, system));
                return false;
            }
        } else if !bytes_eq(fl.as_slice(), tl.as_slice()) {
            assert(!level_matches(fs[i as int], ts[i as int], i == 0, system));
            return false;
        }
        i = i + 1;
    }
    true
}

/// The first `n` bytes of `s`.
fn slice_prefix(s: &[u8], n: usize) -> (r: &[u8])
    requires
        n <= s@.len(),
    ensures
        r@ == s@.subrange(0, n as int),
{
    let r = &s[0..n];
    assert(r@ =~= s@.subrange(0, n as int));
    r
}

} // verus!

verus! {

/// The first level of `s` is the part of `s` before its first `/`: a prefix
/// of `s` that holds no `/`, and that is nonempty when `s` does not start
/// with `/`.
proof fn lemma_first_level(s: Seq<u8>)
    ensures
        split_levels(s).len() >= 1,
        split_levels(s)[0].len() <= s.len(),
        split_levels(s)[0] == s.subrange(0, split_levels(s)[0].len() as int),
        s.len() > 0 && s[0] != SLASH ==> split_levels(s)[0].len() > 0,
        split_levels(s).len() == 1 ==> split_levels(s)[0] == s,
    decreases s.len(),
{
    if s.len() == 0 {
        assert(s.subrange(0, 0) =~= s);
    } else {
        let p = s.drop_last();
        lemma_first_level(p);
        let r = split_levels(p);
        if s.last() == SLASH {
            assert(split_levels(s)[0] == r[0]);
            assert(s.subrange(0, r[0].len() as int) =~= p.subrange(0, r[0].len() as int));
        } else if r.len() == 1 {
            assert(split_levels(s)[0] == r[0].push(s.last()));
            assert(p.push(s.last()) =~= s);
            assert(s.subrange(0, s.len() as int) =~= s);
        } else {
            assert(split_levels(s)[0] == r[0]);
            assert(s.subrange(0, r[0].len() as int) =~= p.subrange(0, r[0].len() as int));
        }
    }
}

/// System-topic isolation (MQTT §4.7.2): a filter that starts with a
/// wildcard (`+` or `#`) never matches a topic that starts with `$`.
pub proof fn lemma_wildcard_never_matches_system_topic(filter: Seq<u8>, topic: Seq<u8>)
    requires
        is_system_topic(topic),
        filter.len() > 0,
        filter[0] == PLUS || filter[0] == HASH,
    ensures
        !spec_match_topic(filter, topic),
{
    assert(filter != topic);
    if filter != seq![HASH] {
        lemma_first_level(topic);
        let tl = split_levels(topic);
        assert(tl[0].len() > 0);
        assert(tl[0][0] == topic[0]);
        let f = if ends_with_slash_hash(filter) {
            filter.subrange(0, filter.len() - 2)
        } else {
            filter
        };
        lemma_first_level(f);
        let fl = split_levels(f);
        if fl[0] == seq![PLUS] {
            assert(!level_matches(fl[0], tl[0], true, true));
        } else {
            if f.len() > 0 {
                assert(f[0] == filter[0]);
                assert(fl[0].len() > 0);
                assert(fl[0][0] == f[0]);
            }
            assert(fl[0] != tl[0]);
            assert(!level_matches(fl[0], tl[0], true, true));
        }
    }
}

/// A nonempty topic always matches itself as a filter.
pub proof fn lemma_topic_matches_itself(topic: Seq<u8>)
    requires
        topic.len() > 0,
    ensures
        spec_match_topic(topic, topic),
{
}

/// `#` alone matches exactly the nonempty topics that are not system topics.
pub proof fn lemma_hash_matches_all_but_system(topic: Seq<u8>)
    requires
        topic.len() > 0,
    ensures
        spec_match_topic(seq![HASH], topic) == !is_system_topic(topic),
{
}


/// Levels joined back together with `/` between them.
pub open spec fn join_levels(l: Seq<Seq<u8>>) -> Seq<u8>
    decreases l.len(),
{
    if l.len() == 0 {
        Seq::empty()
    } else if l.len() == 1 {
        l[0]
    } else {
        join_levels(l.drop_last()) + seq![SLASH] + l.last()
    }
}

/// A filter or topic holding neither `+` nor `#`.
pub open spec fn no_wildcards(s: Seq<u8>) -> bool {
    forall|i: int| 0 <= i < s.len() ==> s[i] != PLUS && s[i] != HASH
}

/// Joining the levels of `s` gives `s` back.
proof fn lemma_join_split(s: Seq<u8>)
    ensures
        split_levels(s).len() >= 1,
        join_levels(split_levels(s)) == s,
    decreases s.len(),
{
    if s.len() > 0 {
        let p = s.drop_last();
        lemma_join_split(p);
        let r = split_levels(p);
        if s.last() == SLASH {
            let n = r.push(Seq::<u8>::empty());
            assert(n.drop_last() =~= r);
            assert(join_levels(n) =~= p + seq![SLASH]);
        } else {
            let n = r.update(r.len() - 1, r.last().push(s.last()));
            if r.len() == 1 {
                assert(join_levels(n) =~= r[0].push(s.last()));
            } else {
                assert(n.drop_last() =~= r.drop_last());
                assert(join_levels(n) =~= join_levels(r.drop_last()) + seq![SLASH] + r.last().push(
                    s.last(),
                ));
                assert(join_levels(r) == join_levels(r.drop_last()) + seq![SLASH] + r.last());
            }
            assert(join_levels(n) =~= p.push(s.last()));
        }
        assert(p.push(s.last()) =~= s);
    }
}

/// Joining two nonempty runs of levels puts one `/` between their joins.
proof fn lemma_join_append(a: Seq<Seq<u8>>, b: Seq<Seq<u8>>)
    requires
        a.len() >= 1,
        b.len() >= 1,
    ensures
        join_levels(a + b) == join_levels(a) + seq![SLASH] + join_levels(b),
    decreases b.len(),
{
    if b.len() == 1 {
        assert((a + b).drop_last() =~= a);
        assert((a + b).last() == b[0]);
    } else {
        let b2 = b.drop_last();
        lemma_join_append(a, b2);
        assert((a + b).drop_last() =~= a + b2);
        assert((a + b).last() == b.last());
        assert(join_levels(a + b) =~= join_levels(a) + seq![SLASH] + join_levels(b2) + seq![SLASH]
            + b.last());
    }
}

/// The levels of a string without wildcards hold no wildcard either.
proof fn lemma_levels_no_wildcards(s: Seq<u8>)
    requires
        no_wildcards(s),
    ensures
        forall|i: int|
            0 <= i < split_levels(s).len() ==> no_wildcards(#[trigger] split_levels(s)[i]),
    decreases s.len(),
{
    if s.len() > 0 {
        let p = s.drop_last();
        assert(no_wildcards(p)) by {
            assert forall|i: int| 0 <= i < p.len() implies p[i] != PLUS && p[i] != HASH by {
                assert(p[i] == s[i]);
            }
        }
        lemma_levels_no_wildcards(p);
        lemma_join_split(p);
        let r = split_levels(p);
        let n = split_levels(s);
        assert forall|i: int| 0 <= i < n.len() implies no_wildcards(#[trigger] n[i]) by {
            if s.last() == SLASH {
                if i < r.len() {
                    assert(n[i] == r[i]);
                }
            } else if i < r.len() - 1 {
                assert(n[i] == r[i]);
            } else {
                assert(no_wildcards(r[i]));
                assert(s.last() == s[s.len() - 1]);
                assert(n[i] == r[i].push(s.last()));
            }
        }
    }
}

/// Filter levels without wildcards match topic levels only when equal.
proof fn lemma_plain_levels_equal(fl: Seq<Seq<u8>>, tl: Seq<Seq<u8>>, system: bool)
    requires
        levels_match_prefix(fl, tl, system),
        forall|i: int| 0 <= i < fl.len() ==> no_wildcards(#[trigger] fl[i]),
    ensures
        fl =~= tl.subrange(0, fl.len() as int),
{
    assert forall|i: int| 0 <= i < fl.len() implies fl[i] == tl[i] by {
        assert(no_wildcards(fl[i]));
        if fl[i] == seq![PLUS] {
            assert(fl[i][0] == PLUS);
        }
        assert(level_matches(fl[i], tl[i], i == 0, system));
    }
}

/// A filter without wildcards matches only the topic equal to it: no
/// message meant for another topic reaches it.
pub proof fn lemma_plain_filter_matches_only_itself(filter: Seq<u8>, topic: Seq<u8>)
    requires
        no_wildcards(filter),
        spec_match_topic(filter, topic),
    ensures
        filter == topic,
{
    if filter != topic {
        if filter == seq![HASH] {
            assert(filter[0] == HASH);
        } else if ends_with_slash_hash(filter) {
            assert(filter[filter.len() - 1] == HASH);
        } else {
            let fl = split_levels(filter);
            let tl = split_levels(topic);
            lemma_levels_no_wildcards(filter);
            lemma_plain_levels_equal(fl, tl, is_system_topic(topic));
            assert(tl.subrange(0, fl.len() as int) =~= tl);
            lemma_join_split(filter);
            lemma_join_split(topic);
        }
    }
}

/// Namespace isolation: a filter `N/#`, where `N` is a nonempty namespace
/// without wildcards, matches only `N` itself and topics under `N/`.
pub proof fn lemma_namespace_filter_stays_inside(ns: Seq<u8>, topic: Seq<u8>)
    requires
        ns.len() > 0,
        no_wildcards(ns),
        spec_match_topic(ns + seq![SLASH, HASH], topic),
    ensures
        topic == ns || (topic.len() > ns.len() && topic.subrange(0, ns.len() as int + 1) == ns.push(
            SLASH,
        )),
{
    let filter = ns + seq![SLASH, HASH];
    if filter == topic {
        assert(topic.subrange(0, ns.len() as int + 1) =~= ns.push(SLASH));
    } else {
        assert(filter != seq![HASH]) by {
            assert(filter.len() == ns.len() + 2);
        }
        assert(ends_with_slash_hash(filter));
        assert(filter.subrange(0, filter.len() - 2) =~= ns);
        let fl = split_levels(ns);
        let tl = split_levels(topic);
        lemma_levels_no_wildcards(ns);
        lemma_plain_levels_equal(fl, tl, is_system_topic(topic));
        lemma_join_split(ns);
        lemma_join_split(topic);
        if fl.len() == tl.len() {
            assert(tl.subrange(0, fl.len() as int) =~= tl);
        } else {
            let rest = tl.subrange(fl.len() as int, tl.len() as int);
            assert(tl =~= fl + rest);
            lemma_join_append(fl, rest);
            assert(topic == ns + seq![SLASH] + join_levels(rest));
            assert(topic.subrange(0, ns.len() as int + 1) =~= ns.push(SLASH));
        }
    }
}

/// A byte string holding no level separator.
pub open spec fn no_slash(s: Seq<u8>) -> bool {
    forall|i: int| 0 <= i < s.len() ==> s[i] != SLASH
}

/// A string without separators is a single level.
proof fn lemma_split_single(l: Seq<u8>)
    requires
        no_slash(l),
    ensures
        split_levels(l) == seq![l],
    decreases l.len(),
{
    if l.len() > 0 {
        let p = l.drop_last();
        assert(no_slash(p)) by {
            assert forall|i: int| 0 <= i < p.len() implies p[i] != SLASH by {
                assert(p[i] == l[i]);
            }
        }
        lemma_split_single(p);
        assert(l.last() == l[l.len() - 1]);
        assert(l.last() != SLASH);
        assert(p.push(l.last()) =~= l);
        assert(split_levels(l) == split_levels(p).update(0, p.push(l.last())));
        assert(seq![p].update(0, p.push(l.last())) =~= seq![l]);
    } else {
        assert(l =~= Seq::<u8>::empty());
    }
}

/// Appending a separator and a level without separators appends that
/// level.
proof fn lemma_split_append_level(s: Seq<u8>, l: Seq<u8>)
    requires
        no_slash(l),
    ensures
        split_levels(s + seq![SLASH] + l) == split_levels(s).push(l),
    decreases l.len(),
{
    let x = s + seq![SLASH] + l;
    if l.len() == 0 {
        assert(l =~= Seq::<u8>::empty());
        assert(x.drop_last() =~= s);
        assert(x.last() == SLASH);
        assert(split_levels(x) == split_levels(s).push(Seq::<u8>::empty()));
    } else {
        let p = l.drop_last();
        assert(no_slash(p)) by {
            assert forall|i: int| 0 <= i < p.len() implies p[i] != SLASH by {
                assert(p[i] == l[i]);
            }
        }
        lemma_split_append_level(s, p);
        assert(x.drop_last() =~= s + seq![SLASH] + p);
        assert(x.last() == l[l.len() - 1]);
        assert(x.last() != SLASH);
        let r = split_levels(s).push(p);
        assert(split_levels(x) == r.update(r.len() - 1, r.last().push(x.last())));
        assert(p.push(x.last()) =~= l);
        assert(r.update(r.len() - 1, r.last().push(x.last())) =~= split_levels(s).push(l));
    }
}

/// Splitting the join of levels without separators gives the levels back.
proof fn lemma_split_join(fl: Seq<Seq<u8>>)
    requires
        fl.len() >= 1,
        forall|i: int| 0 <= i < fl.len() ==> no_slash(#[trigger] fl[i]),
    ensures
        split_levels(join_levels(fl)) == fl,
    decreases fl.len(),
{
    if fl.len() == 1 {
        assert(no_slash(fl[0]));
        lemma_split_single(fl[0]);
        assert(seq![fl[0]] =~= fl);
    } else {
        let p = fl.drop_last();
        assert forall|i: int| 0 <= i < p.len() implies no_slash(#[trigger] p[i]) by {
            assert(p[i] == fl[i]);
        }
        lemma_split_join(p);
        assert(no_slash(fl[fl.len() - 1]));
        lemma_split_append_level(join_levels(p), fl.last());
        assert(p.push(fl.last()) =~= fl);
    }
}

/// The levels of any string hold no separator.
proof fn lemma_levels_no_slash(s: Seq<u8>)
    ensures
        forall|i: int| 0 <= i < split_levels(s).len() ==> no_slash(#[trigger] split_levels(s)[i]),
    decreases s.len(),
{
    if s.len() > 0 {
        let p = s.drop_last();
        lemma_levels_no_slash(p);
        lemma_join_split(p);
        let r = split_levels(p);
        let n = split_levels(s);
        assert forall|i: int| 0 <= i < n.len() implies no_slash(#[trigger] n[i]) by {
            if s.last() == SLASH {
                if i < r.len() {
                    assert(n[i] == r[i]);
                } else {
                    assert(n[i] =~= Seq::<u8>::empty());
                }
            } else if i < r.len() - 1 {
                assert(n[i] == r[i]);
            } else {
                assert(no_slash(r[i]));
                assert(n[i] == r[i].push(s.last()));
            }
        }
    }
}

/// The last byte of a join of levels whose last level is not empty is the
/// last byte of that level.
proof fn lemma_join_last(fl: Seq<Seq<u8>>)
    requires
        fl.len() >= 1,
        fl.last().len() > 0,
    ensures
        join_levels(fl).len() > 0,
        join_levels(fl).last() == fl.last().last(),
{
    if fl.len() > 1 {
        let j = join_levels(fl);
        assert(j == join_levels(fl.drop_last()) + seq![SLASH] + fl.last());
    }
}

/// `+` stands for any one level: a filter made from the levels of a topic
/// (which holds no wildcards), with any of them replaced by `+`, matches
/// that topic, provided the first level is kept when the topic is a system
/// topic. In particular `+/rest` matches `x/rest` for every first level `x`
/// of a topic that does not start with `$`.
pub proof fn lemma_plus_matches_any_level(fl: Seq<Seq<u8>>, topic: Seq<u8>)
    requires
        topic.len() > 0,
        no_wildcards(topic),
        fl.len() == split_levels(topic).len(),
        forall|i: int|
            0 <= i < fl.len() ==> #[trigger] fl[i] == seq![PLUS] || fl[i] == split_levels(topic)[i],
        is_system_topic(topic) ==> fl[0] != seq![PLUS],
    ensures
        spec_match_topic(join_levels(fl), topic),
{
    let tl = split_levels(topic);
    let f = join_levels(fl);
    lemma_join_split(topic);
    lemma_levels_no_slash(topic);
    lemma_levels_no_wildcards(topic);
    assert forall|i: int| 0 <= i < fl.len() implies no_slash(#[trigger] fl[i]) by {
        if fl[i] == seq![PLUS] {
            assert forall|k: int| 0 <= k < fl[i].len() implies fl[i][k] != SLASH by {}
        } else {
            assert(no_slash(tl[i]));
        }
    }
    lemma_split_join(fl);
    // The filter is not empty, is not `#` and does not end with `/#`.
    let last = fl.last();
    assert(last == fl[fl.len() - 1]);
    if fl.len() == 1 {
        assert(tl.len() == 1);
        assert(join_levels(tl) == tl[0]);
        assert(f == fl[0]);
        if fl[0] == seq![PLUS] {
            assert(f.len() == 1 && f[0] == PLUS);
        } else {
            assert(f == topic);
        }
    } else {
        let pre = join_levels(fl.drop_last());
        assert(f == pre + seq![SLASH] + last);
        assert(f[pre.len() as int] == SLASH);
        assert(f.len() >= 1);
        if f == seq![HASH] {
            assert(f[0] == HASH);
        }
        if last.len() > 0 {
            lemma_join_last(fl);
            if last == seq![PLUS] {
                assert(last.last() == PLUS);
            } else {
                assert(no_wildcards(tl[fl.len() - 1]));
                assert(last.last() == last[last.len() - 1]);
            }
        } else {
            assert(f =~= pre + seq![SLASH]);
            assert(f.last() == SLASH);
        }
        assert(f[f.len() - 1] != HASH);
    }
    if f != topic {
        assert(!ends_with_slash_hash(f));
        assert(f != seq![HASH]);
        assert forall|i: int| 0 <= i < fl.len() implies level_matches(
            #[trigger] fl[i],
            tl[i],
            i == 0,
            is_system_topic(topic),
        ) by {}
        assert(levels_match(split_levels(f), tl, is_system_topic(topic)));
    }
}

} // verus!
