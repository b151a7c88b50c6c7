use rust_mqtt::match_topic;

#[test]
fn exact_match() {
    assert!(match_topic("a/b/c", "a/b/c"));
}

#[test]
fn hash_matches_all_non_system() {
    assert!(match_topic("#", "a/b/c"));
    assert!(match_topic("#", "a"));
    assert!(!match_topic("#", "$SYS/broker"));
}

#[test]
fn hash_suffix() {
    assert!(match_topic("a/#", "a"));
    assert!(match_topic("a/#", "a/b"));
    assert!(match_topic("a/#", "a/b/c"));
    assert!(!match_topic("a/#", "b/c"));
}

#[test]
fn plus_single_level() {
    assert!(match_topic("a/+/c", "a/b/c"));
    assert!(match_topic("a/+/c", "a/z/c"));
    assert!(!match_topic("a/+/c", "a/b/d"));
    assert!(!match_topic("a/+/c", "a/b/c/d"));
}

#[test]
fn plus_first_level_no_system() {
    assert!(!match_topic("+/topic", "$SYS/topic"));
}

#[test]
fn system_topic_exact_match() {
    assert!(match_topic("$SYS/broker", "$SYS/broker"));
}

#[test]
fn no_match_different_lengths() {
    assert!(!match_topic("a/b", "a/b/c"));
}

#[test]
fn empty_level_preserved() {
    assert!(match_topic("a//b", "a//b"));
    assert!(!match_topic("a//b", "a/b"));
}

#[test]
fn hash_system_subtree() {
    assert!(match_topic("$SYS/#", "$SYS/broker/version"));
}

#[test]
fn plus_multi_level_no_match() {
    assert!(!match_topic("+", "a/b"));
}

#[test]
fn match_topic_conformance() {
    assert!(match_topic("a/b/c", "a/b/c"));
    assert!(match_topic("#", "a/b/c"));
    assert!(!match_topic("#", "$SYS/broker"));
    assert!(match_topic("a/#", "a/b/c"));
    assert!(match_topic("a/+/c", "a/b/c"));
    assert!(!match_topic("+", "$SYS/broker"));
    assert!(match_topic("$SYS/#", "$SYS/broker/version"));
}

#[test]
fn wildcard_plus_single_level() {
    assert!(match_topic("a/+/c", "a/b/c"));
    assert!(match_topic("a/+", "a/b"));
    assert!(!match_topic("a/+/c", "a/b/d/c"));
    assert!(!match_topic("a/+", "a"));
}

#[test]
fn wildcard_hash_multilevel() {
    assert!(match_topic("#", "a/b/c"));
    assert!(match_topic("a/#", "a/b/c/d"));
    assert!(match_topic("a/#", "a/b"));
    assert!(match_topic("a/#", "a"));
    assert!(!match_topic("b/#", "a/b/c"));
}

#[test]
fn wildcard_sys_topic_not_matched_by_plus() {
    assert!(!match_topic("+", "$SYS/broker"));
    assert!(!match_topic("+/status", "$SYS/status"));
}

#[test]
fn wildcard_sys_topic_explicit_prefix() {
    assert!(match_topic("$SYS/#", "$SYS/broker/version"));
    assert!(match_topic("$SYS/+/version", "$SYS/broker/version"));
}

#[test]
fn wildcard_empty_filter_returns_false() {
    assert!(!match_topic("", "a/b"));
    assert!(!match_topic("", ""));
}

#[test]
fn wildcard_empty_topic_returns_false() {
    assert!(!match_topic("a/b", ""));
    assert!(!match_topic("#", ""));
}

#[test]
fn match_topic_exact_no_wildcard_bleed() {
    assert!(!match_topic("safety/+", "nonsafety/cmd"));
    assert!(!match_topic("safety/#", "nonsafety/cmd/brake"));
    assert!(match_topic("safety/#", "safety/cmd/brake"));
    assert!(!match_topic("#", "$SYS/broker"));
}

#[test]
fn plus_then_hash_expands_both() {
    assert!(match_topic("a/+/#", "a/b"));
    assert!(match_topic("a/+/#", "a/b/c/d"));
    assert!(!match_topic("a/+/#", "a"));
    assert!(!match_topic("a/+/#", "x/b/c"));
}

#[test]
fn every_topic_matches_itself_as_filter() {
    for t in ["a", "a/b/c", "$SYS/x", "a//b", "/lead"] {
        assert!(match_topic(t, t), "{t} must match itself");
    }
}

#[test]
fn wildcards_never_reach_system_topics() {
    for f in ["#", "+", "+/#", "+/a"] {
        assert!(!match_topic(f, "$SYS/a"));
        assert!(!match_topic(f, "$x"));
    }
}

#[test]
fn namespace_filter_stays_inside() {
    assert!(match_topic("safety/#", "safety"));
    assert!(match_topic("safety/#", "safety/x"));
    assert!(!match_topic("safety/#", "safetyx/cmd"));
    assert!(!match_topic("safety/#", "safety_brake"));
    assert!(!match_topic("safety/brake", "safety/brakes"));
    assert!(!match_topic("safety/brake", "safety/brake/x"));
}
