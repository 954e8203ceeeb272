//! Configuration: defaults, validation and the policy fingerprint.

use archiv_agent::config::{
    AgentConfig, ConfigError, ExportConfig, IngestConfig, Limits, RedactionConfig, RegexRuleConfig,
    SamplingConfig, SamplingMatch, SamplingRule,
};
use archiv_agent::redact::FieldSelector;

fn when(namespace: Option<&str>, severity_lte: Option<&str>, target: u16) -> SamplingRule {
    SamplingRule {
        selector: SamplingMatch {
            namespace: namespace.map(str::to_string),
            severity_lte: severity_lte.map(str::to_string),
        },
        target,
    }
}

fn regex_rule(name: &str, pattern: &str, mask: &str, fields: &[&str]) -> RegexRuleConfig {
    RegexRuleConfig {
        name: name.to_string(),
        pattern: pattern.to_string(),
        mask: mask.to_string(),
        fields: fields.iter().map(|f| f.to_string()).collect(),
    }
}

fn full() -> AgentConfig {
    AgentConfig {
        dry_run: false,
        ingest: IngestConfig {
            grpc_endpoint: "0.0.0.0:5317".to_string(),
            http_endpoint: "0.0.0.0:5318".to_string(),
            channel_capacity: 4096,
        },
        sampling: SamplingConfig {
            default_target: 50,
            rules: vec![
                when(Some("payments"), None, 100),
                when(None, Some("DEBUG"), 10),
                when(Some("batch-*"), None, 25),
            ],
        },
        redaction: RedactionConfig {
            regex_rules: vec![regex_rule(
                "email",
                r"[A-Za-z0-9._%+-]+@[A-Za-z0-9.-]+\.[A-Za-z]{2,}",
                "[REDACTED:email]",
                &["body", "attributes.*"],
            )],
        },
        export: ExportConfig {
            otlp_endpoint: Some("https://otlp.example.com:4318".to_string()),
            spool_dir: "/data/spool".to_string(),
            spool_max_bytes: 1_073_741_824,
        },
        limits: Limits {
            max_body_bytes: 8_388_608,
        },
    }
}

fn with_target(default_target: u16) -> AgentConfig {
    let mut cfg = AgentConfig::default();
    cfg.sampling.default_target = default_target;
    cfg.redaction.regex_rules = vec![regex_rule("email", "x@y", "[E]", &["body"])];
    cfg
}

#[test]
fn full_config_validates_and_yields_rule_specs() {
    let cfg = full();
    assert!(cfg.validate().is_ok());
    let specs = cfg.into_redaction_rule_specs().unwrap();
    assert_eq!(specs.len(), 1);
    assert_eq!(specs[0].name, "email");
    assert_eq!(specs[0].fields.len(), 2);
    assert_eq!(specs[0].fields[0], FieldSelector::Body);
    assert_eq!(specs[0].fields[1], FieldSelector::Attrs("*".to_string()));
}

#[test]
fn policy_fingerprint_is_stable_and_policy_sensitive() {
    let a = with_target(25);
    let mut b = with_target(25);
    b.limits.max_body_bytes = 999;
    let c = with_target(50);

    let fa = a.policy_fingerprint();
    let fb = b.policy_fingerprint();
    let fc = c.policy_fingerprint();

    assert_eq!(fa, fb, "limits must not change the policy version");
    assert_ne!(
        fa, fc,
        "a different sampling target is a new policy version"
    );
}

#[test]
fn every_part_of_the_policy_shows_in_the_fingerprint() {
    let base = full().policy_fingerprint();
    let mut a = full();
    a.sampling.rules[0].selector.namespace = Some("payment".to_string());
    let mut b = full();
    b.sampling.rules[1].target = 11;
    let mut c = full();
    c.redaction.regex_rules[0].mask = "[X]".to_string();
    let mut d = full();
    d.redaction.regex_rules[0].fields.remove(1);
    let mut e = full();
    e.sampling.rules.swap(0, 2);
    for other in [a, b, c, d, e] {
        assert_ne!(other.policy_fingerprint(), base);
    }
}

#[test]
fn empty_document_yields_working_defaults() {
    let cfg = AgentConfig::default();
    assert!(cfg.validate().is_ok());
    assert_eq!(cfg.ingest.grpc_endpoint, "0.0.0.0:4317");
    assert_eq!(cfg.ingest.http_endpoint, "0.0.0.0:4318");
    assert_eq!(cfg.ingest.channel_capacity, 8192);
    assert_eq!(cfg.sampling.default_target, 100);
    assert!(cfg.sampling.rules.is_empty());
    assert!(cfg.redaction.regex_rules.is_empty());
    assert_eq!(cfg.export.otlp_endpoint, None);
    assert_eq!(cfg.export.spool_dir, "/var/lib/archiv/spool");
    assert_eq!(cfg.export.spool_max_bytes, 512 * 1024 * 1024);
    assert_eq!(cfg.limits.max_body_bytes, 4 * 1024 * 1024);
}

#[test]
fn out_of_range_target_is_rejected() {
    let mut cfg = AgentConfig::default();
    cfg.sampling.rules = vec![when(Some("x"), None, 150)];
    let err = cfg.validate().unwrap_err();
    assert!(
        matches!(err, ConfigError::TargetOutOfRange { target: 150, .. }),
        "got {err:?}"
    );
}

#[test]
fn default_target_over_100_is_rejected() {
    let mut cfg = AgentConfig::default();
    cfg.sampling.default_target = 101;
    let err = cfg.validate().unwrap_err();
    assert!(matches!(
        err,
        ConfigError::TargetOutOfRange { target: 101, .. }
    ));
}

#[test]
fn zero_channel_capacity_is_rejected() {
    let mut cfg = AgentConfig::default();
    cfg.ingest.channel_capacity = 0;
    let err = cfg.validate().unwrap_err();
    assert!(matches!(err, ConfigError::ZeroChannelCapacity));
}

#[test]
fn zero_body_limit_is_rejected() {
    let mut cfg = AgentConfig::default();
    cfg.limits.max_body_bytes = 0;
    let err = cfg.validate().unwrap_err();
    assert!(matches!(err, ConfigError::ZeroMaxBodyBytes));
}

#[test]
fn invalid_field_selector_fails_startup() {
    let mut cfg = AgentConfig::default();
    cfg.redaction.regex_rules = vec![regex_rule("r", "x", "[X]", &["bodies"])];
    let err = cfg.validate().unwrap_err();
    assert!(
        matches!(err, ConfigError::InvalidFieldSelector { ref selector, .. } if selector == "bodies"),
        "got {err:?}"
    );
}

#[test]
fn empty_fields_list_is_rejected() {
    let mut cfg = AgentConfig::default();
    cfg.redaction.regex_rules = vec![regex_rule("r", "x", "[X]", &[])];
    let err = cfg.validate().unwrap_err();
    assert!(
        matches!(err, ConfigError::EmptyFields { .. }),
        "got {err:?}"
    );
}

#[test]
fn a_rejected_target_names_its_rule() {
    let mut cfg = AgentConfig::default();
    cfg.sampling.rules = vec![when(None, None, 5), when(None, None, 101)];
    match cfg.validate() {
        Err(ConfigError::TargetOutOfRange { which, target }) => {
            assert_eq!(which, "rules[1]");
            assert_eq!(target, 101);
        }
        other => panic!("expected an out-of-range target, got {other:?}"),
    }
}

#[test]
fn a_run_is_dry_only_where_it_is_asked_for() {
    assert!(!AgentConfig::default().dry_run);
}
