//! Sampling policies: which target applies to a record.

use archiv_agent::policy::{glob_matches, severity_band_max, Rule, SamplingPolicy};

fn rule(ns: Option<&str>, sev: Option<i32>, target: u8) -> Rule {
    Rule {
        namespace_glob: ns.map(str::to_string),
        severity_lte: sev,
        target,
    }
}

#[test]
fn first_match_wins_then_default() {
    let policy = SamplingPolicy::new(
        vec![
            rule(Some("payments"), None, 100),
            rule(None, Some(8), 10),
            rule(Some("batch-*"), None, 25),
        ],
        50,
    );
    // The first rule holds whatever the severity.
    assert_eq!(policy.resolve(Some(b"payments"), Some(9)), 100);
    // DEBUG (5) meets the severity rule.
    assert_eq!(policy.resolve(Some(b"web"), Some(5)), 10);
    // INFO (9) is above 8, so the third rule gets its turn.
    assert_eq!(policy.resolve(Some(b"batch-nightly"), Some(9)), 25);
    // Nothing matches.
    assert_eq!(policy.resolve(Some(b"web"), Some(9)), 50);
    assert_eq!(policy.resolve(None, None), 50);
    assert_eq!(policy.default_target(), 50);
}

#[test]
fn earlier_rules_shadow_later_ones() {
    let policy = SamplingPolicy::new(
        vec![rule(Some("batch-*"), None, 1), rule(Some("batch-a"), None, 99)],
        50,
    );
    assert_eq!(policy.resolve(Some(b"batch-a"), None), 1);
}

#[test]
fn both_conditions_must_hold() {
    let policy = SamplingPolicy::new(vec![rule(Some("web"), Some(8), 3)], 70);
    assert_eq!(policy.resolve(Some(b"web"), Some(8)), 3);
    assert_eq!(policy.resolve(Some(b"web"), Some(9)), 70);
    assert_eq!(policy.resolve(Some(b"db"), Some(8)), 70);
}

#[test]
fn specified_condition_with_absent_field_does_not_match() {
    let policy = SamplingPolicy::new(vec![rule(Some("payments"), None, 100)], 25);
    assert_eq!(policy.resolve(None, Some(9)), 25);
    let sev_policy = SamplingPolicy::new(vec![rule(None, Some(8), 10)], 25);
    assert_eq!(sev_policy.resolve(Some(b"x"), None), 25);
}

#[test]
fn catch_all_rule_matches_everything() {
    let policy = SamplingPolicy::new(vec![rule(None, None, 5)], 100);
    assert_eq!(policy.resolve(None, None), 5);
    assert_eq!(policy.resolve(Some(b"any"), Some(20)), 5);
}

#[test]
fn severity_bands() {
    assert_eq!(severity_band_max("DEBUG"), Some(8));
    assert_eq!(severity_band_max("debug"), Some(8));
    assert_eq!(severity_band_max("INFO"), Some(12));
    assert_eq!(severity_band_max("FATAL"), Some(24));
    assert_eq!(severity_band_max("nope"), None);
}

#[test]
fn every_band_ends_a_multiple_of_four() {
    assert_eq!(severity_band_max("TRACE"), Some(4));
    assert_eq!(severity_band_max("Warn"), Some(16));
    assert_eq!(severity_band_max("eRRoR"), Some(20));
    assert_eq!(severity_band_max(""), None);
    assert_eq!(severity_band_max("INFO "), None);
}

#[test]
fn policy_glob_semantics() {
    assert!(glob_matches(b"batch-*", b"batch-nightly"));
    assert!(glob_matches(b"*", b"anything"));
    assert!(!glob_matches(b"payments", b"payments-eu"));
    assert!(glob_matches(b"*-eu", b"payments-eu"));
}
