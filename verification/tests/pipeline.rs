//! Whole payloads through the pipeline.

use archiv_agent::config::{
    AgentConfig, RegexRuleConfig, SamplingMatch, SamplingRule,
};
use archiv_agent::metrics::Metrics;
use archiv_agent::pipeline::{BuildError, Pipeline, RedactGate, Redaction};
use archiv_agent::server::{next_step, sample, Progress, Step, Verdict};
use bytes::Bytes;
use std::time::Instant;

const TRACE: [u8; 16] = [0x11; 16];

fn varint(mut v: u64, out: &mut Vec<u8>) {
    loop {
        let b: u8 = (v & 0x7F) as u8;
        v >>= 7;
        if v == 0 {
            out.push(b);
            break;
        }
        out.push(b | 0x80);
    }
}

fn field_len(field: u32, payload: &[u8], out: &mut Vec<u8>) {
    varint(u64::from(field) << 3 | 2, out);
    varint(payload.len() as u64, out);
    out.extend_from_slice(payload);
}

fn field_varint(field: u32, v: u64, out: &mut Vec<u8>) {
    varint(u64::from(field) << 3, out);
    varint(v, out);
}

fn any_string(s: &str) -> Vec<u8> {
    let mut out: Vec<u8> = Vec::new();
    field_len(1, s.as_bytes(), &mut out);
    out
}

fn key_value(key: &str, value_any: &[u8]) -> Vec<u8> {
    let mut out: Vec<u8> = Vec::new();
    field_len(1, key.as_bytes(), &mut out);
    field_len(2, value_any, &mut out);
    out
}

struct Rec<'a> {
    body: &'a str,
    trace_id: Option<&'a [u8]>,
    attrs: Vec<Vec<u8>>,
    severity: Option<i32>,
}

impl Rec<'_> {
    fn encode(&self) -> Vec<u8> {
        let mut out: Vec<u8> = Vec::new();
        if let Some(sev) = self.severity {
            field_varint(2, sev as u64, &mut out);
        }
        field_len(5, &any_string(self.body), &mut out);
        for attr in &self.attrs {
            field_len(6, attr, &mut out);
        }
        if let Some(tid) = self.trace_id {
            field_len(9, tid, &mut out);
        }
        out
    }
}

fn request_ns(namespace: Option<&str>, records: &[Rec]) -> Vec<u8> {
    let mut scope_logs: Vec<u8> = Vec::new();
    for r in records {
        field_len(2, &r.encode(), &mut scope_logs);
    }
    let mut resource: Vec<u8> = Vec::new();
    field_len(
        1,
        &key_value("service.name", &any_string("checkout")),
        &mut resource,
    );
    if let Some(ns) = namespace {
        field_len(
            1,
            &key_value("k8s.namespace.name", &any_string(ns)),
            &mut resource,
        );
    }
    let mut resource_logs: Vec<u8> = Vec::new();
    field_len(1, &resource, &mut resource_logs);
    field_len(2, &scope_logs, &mut resource_logs);
    let mut req: Vec<u8> = Vec::new();
    field_len(1, &resource_logs, &mut req);
    req
}

fn request(records: &[Rec]) -> Vec<u8> {
    request_ns(None, records)
}

fn rec(body: &str) -> Rec<'_> {
    Rec {
        body,
        trace_id: Some(&TRACE),
        attrs: vec![],
        severity: None,
    }
}

fn with_target(default_target: u16) -> AgentConfig {
    let mut cfg = AgentConfig::default();
    cfg.sampling.default_target = default_target;
    cfg
}

fn email_config(fields: &[&str]) -> AgentConfig {
    let mut cfg = with_target(100);
    cfg.redaction.regex_rules = vec![RegexRuleConfig {
        name: "email".to_string(),
        pattern: r"[A-Za-z0-9._%+-]+@[A-Za-z0-9.-]+\.[A-Za-z]{2,}".to_string(),
        mask: "[REDACTED:email]".to_string(),
        fields: fields.iter().map(|f| f.to_string()).collect(),
    }];
    cfg
}

fn when(namespace: Option<&str>, severity_lte: Option<&str>, target: u16) -> SamplingRule {
    SamplingRule {
        selector: SamplingMatch {
            namespace: namespace.map(str::to_string),
            severity_lte: severity_lte.map(str::to_string),
        },
        target,
    }
}

fn pipeline(cfg: AgentConfig) -> Pipeline {
    assert!(cfg.validate().is_ok(), "config valid");
    Pipeline::from_config(cfg).expect("pipeline builds")
}

#[test]
fn keep_all_no_redaction_is_byte_identical_passthrough() {
    let mut pipe = pipeline(with_target(100));
    let input = request(&[rec("first record"), rec("second record")]);

    let out = pipe.process(Bytes::from(input.clone()));
    assert_eq!(
        out.output.contiguous(),
        input,
        "no policy: output equals input"
    );
    assert_eq!(out.stats.records_in, 2);
    assert_eq!(out.stats.kept, 2);
    assert_eq!(out.stats.dropped, 0);
    assert_eq!(out.stats.redactions, 0);
    assert_eq!(out.stats.bytes_out, out.stats.bytes_in);
    assert!(
        !out.stats.parse_bypassed && !out.stats.redact_bypassed && !out.stats.assemble_bypassed
    );
}

#[test]
fn redaction_matches_fresh_encode_with_masks() {
    let mut pipe = pipeline(email_config(&["body", "attributes.user.*"]));
    let input = request(&[Rec {
        body: "reach alice@corp.io today",
        trace_id: Some(&TRACE),
        attrs: vec![
            key_value("user.email", &any_string("bob@corp.io")),
            key_value("note", &any_string("cc dave@corp.io")), // not selected
        ],
        severity: None,
    }]);

    let out = pipe.process(Bytes::from(input));

    let expected = request(&[Rec {
        body: "reach [REDACTED:email] today",
        trace_id: Some(&TRACE),
        attrs: vec![
            key_value("user.email", &any_string("[REDACTED:email]")),
            key_value("note", &any_string("cc dave@corp.io")),
        ],
        severity: None,
    }]);
    assert_eq!(out.output.contiguous(), expected);
    assert_eq!(out.stats.kept, 1);
    assert_eq!(out.stats.redactions, 2); // body and user.email
    assert_eq!(pipe.redaction_counts(), vec![("email", 2)]);
}

#[test]
fn zero_target_drops_every_record() {
    let mut pipe = pipeline(with_target(0));
    let input = request(&[rec("drop me"), rec("me too")]);

    let out = pipe.process(Bytes::from(input));

    // What wrapped the records stays, empty.
    assert_eq!(out.output.contiguous(), request(&[]));
    assert_eq!(out.stats.records_in, 2);
    assert_eq!(out.stats.dropped, 2);
    assert_eq!(out.stats.kept, 0);
}

#[test]
fn rule_based_sampling_by_namespace_and_severity() {
    let mut cfg = with_target(100);
    cfg.sampling.rules = vec![
        when(Some("payments"), None, 100),
        when(None, Some("DEBUG"), 0),
    ];
    let mut pipe = pipeline(cfg);

    // DEBUG (5) in "web" meets the severity rule.
    let debug_web = request_ns(
        Some("web"),
        &[Rec {
            body: "debug noise",
            trace_id: Some(&TRACE),
            attrs: vec![],
            severity: Some(5),
        }],
    );
    let out = pipe.process(Bytes::from(debug_web));
    assert_eq!(
        (out.stats.kept, out.stats.dropped),
        (0, 1),
        "debug in web dropped"
    );

    // DEBUG (5) in "payments" meets the payments rule first.
    let debug_payments = request_ns(
        Some("payments"),
        &[Rec {
            body: "debug in payments",
            trace_id: Some(&TRACE),
            attrs: vec![],
            severity: Some(5),
        }],
    );
    let out = pipe.process(Bytes::from(debug_payments));
    assert_eq!(
        (out.stats.kept, out.stats.dropped),
        (1, 0),
        "payments never sampled"
    );

    // INFO (9) in "web" meets no rule.
    let info_web = request_ns(
        Some("web"),
        &[Rec {
            body: "info",
            trace_id: Some(&TRACE),
            attrs: vec![],
            severity: Some(9),
        }],
    );
    let out = pipe.process(Bytes::from(info_web));
    assert_eq!(
        (out.stats.kept, out.stats.dropped),
        (1, 0),
        "info falls through to default"
    );
}

#[test]
fn garbage_input_fails_open_and_forwards_verbatim() {
    let mut pipe = pipeline(email_config(&["body", "attributes.user.*"]));
    let garbage = Bytes::from_static(&[0xFF; 40]);

    let out = pipe.process(garbage.clone());

    assert!(
        out.stats.parse_bypassed,
        "unparseable payload must bypass parse"
    );
    assert_eq!(out.stats.records_in, 0);
    assert_eq!(out.output.contiguous(), garbage.as_ref());
    assert_eq!(out.stats.bytes_out, out.stats.bytes_in);
}

#[test]
fn default_pipeline_is_full_passthrough() {
    let mut pipe = Pipeline::from_config(AgentConfig::default()).expect("builds");
    let input = request(&[rec("anything at all with an email x@y.io")]);
    let out = pipe.process(Bytes::from(input.clone()));
    assert_eq!(out.output.contiguous(), input);
    assert_eq!(out.stats.kept, 1);
    assert_eq!(out.stats.redactions, 0);
}

#[test]
fn unknown_severity_name_fails_pipeline_build() {
    let mut cfg = AgentConfig::default();
    cfg.sampling.rules = vec![when(None, Some("LOUD"), 10)];
    // The name is free text to the configuration; the pipeline rejects it.
    assert!(cfg.validate().is_ok());
    assert!(matches!(
        Pipeline::from_config(cfg),
        Err(BuildError::UnknownSeverity { ref name }) if name == "LOUD"
    ));
}

#[test]
fn rules_that_do_not_compile_fail_pipeline_build() {
    let mut cfg = email_config(&["body"]);
    cfg.redaction.regex_rules[0].pattern = "(a+)+".to_string();
    assert!(matches!(
        Pipeline::from_config(cfg),
        Err(BuildError::Redact(_))
    ));
    assert!(matches!(
        Pipeline::from_config(email_config(&["bodies"])),
        Err(BuildError::Config(_))
    ));
}

#[test]
fn limits_and_targets_are_handed_on() {
    let mut cfg = with_target(40);
    cfg.limits.max_body_bytes = 123;
    let pipe = pipeline(cfg);
    assert_eq!(pipe.max_body_bytes(), 123);
    assert_eq!(pipe.default_target(), 40);
}

#[test]
fn records_of_one_trace_share_a_verdict() {
    for target in [0u16, 1, 30, 60, 99, 100] {
        let mut pipe = pipeline(with_target(target));
        let out = pipe.process(Bytes::from(request(&[rec("a"), rec("b"), rec("c")])));
        assert_eq!(out.stats.kept + out.stats.dropped, 3);
        assert!(out.stats.kept == 0 || out.stats.kept == 3);
    }
}

#[test]
fn after_a_panic_sampling_stands_and_nothing_is_masked() {
    let mut pipe = pipeline(email_config(&["body"]));
    let input = request(&[rec("mail a@b.io")]);
    let now = Instant::now();
    let out = pipe.process_after_panic(Bytes::from(input.clone()), now);
    assert_eq!(out.output.contiguous(), input);
    assert!(out.stats.redact_bypassed);
    assert_eq!(out.stats.kept, 1);
    assert_eq!(out.stats.redactions, 0);
}

#[test]
fn five_panics_hold_redaction_back() {
    let mut pipe = pipeline(email_config(&["body"]));
    let input = Bytes::from(request(&[rec("mail a@b.io")]));
    let now = Instant::now();
    for _ in 0..5 {
        assert!(!pipe.process_at(input.clone(), now).stats.redact_bypassed);
        pipe.process_after_panic(input.clone(), now);
    }
    let out = pipe.process_at(input.clone(), now);
    assert!(out.stats.redact_bypassed, "the breaker is open");
    assert_eq!(out.output.contiguous(), input.to_vec());
}

#[test]
fn numbers_of_a_request_reach_the_window() {
    let mut pipe = pipeline(email_config(&["body"]));
    let mut metrics = Metrics::new(0);
    for _ in 0..2 {
        let out = pipe.process(Bytes::from(request(&[rec("ping alice@corp.io ok")])));
        match next_step(Progress::Processed(out.stats), false, false) {
            Step::RecordAndAnswer(s, Verdict::Accepted) => metrics.record(&s),
            other => panic!("expected acceptance, got {other:?}"),
        }
    }
    let agg = metrics.flush(0, 10_000);
    assert_eq!(agg.seq, 0);
    assert_eq!(agg.events_in, 2, "two records ingested");
    assert_eq!(agg.events_exported, 2, "target 100 keeps all");
    assert_eq!(agg.events_sampled_out, 0);
    assert_eq!(agg.redaction_count, 2, "one email redacted per record");
    assert_eq!(agg.failopen_count, 0, "no stage was bypassed");
    assert!(agg.bytes_in > 0);
    assert_eq!(metrics.flush(0, 1).events_in, 0);
}

#[test]
fn what_sampling_saves_reaches_the_window() {
    let mut pipe = pipeline(with_target(0));
    let mut metrics = Metrics::new(0);
    let out = pipe.process(Bytes::from(request(&[rec(
        "this record is dropped by sampling",
    )])));
    metrics.record(&sample(&out.stats));
    let agg = metrics.flush(0, 10_000);
    assert_eq!(agg.events_in, 1);
    assert_eq!(agg.events_sampled_out, 1, "target 0 drops all");
    assert_eq!(agg.events_exported, 0);
    assert!(agg.bytes_dropped > 0);
    assert!(agg.bytes_exported < agg.bytes_in);
}

#[test]
fn a_dry_run_hands_on_everything_and_tells_what_would_have_left() {
    let input = request(&[rec("mail a@b.io"), rec("nothing here")]);
    let mut wet = pipeline(email_config(&["body"]));
    let governed = wet.process(Bytes::from(input.clone()));
    assert_ne!(governed.output.contiguous(), input);

    let mut cfg = email_config(&["body"]);
    cfg.dry_run = true;
    let mut dry = pipeline(cfg);
    let out = dry.process(Bytes::from(input.clone()));
    assert_eq!(out.output.contiguous(), input);
    assert_eq!(out.stats, governed.stats);
    assert_eq!(out.stats.redactions, 1);
    assert_eq!(out.stats.bytes_out, governed.output.len());
    assert_eq!(dry.redaction_counts(), vec![("email", 1)]);

    let mut cfg = with_target(0);
    cfg.dry_run = true;
    let out = pipeline(cfg).process(Bytes::from(input.clone()));
    assert_eq!(out.output.contiguous(), input);
    assert_eq!((out.stats.kept, out.stats.dropped), (0, 2));
    assert!(out.stats.bytes_out < out.stats.bytes_in);
}

#[test]
fn requests_side_by_side_share_one_gate() {
    let pipe = pipeline(email_config(&["body"]));
    let mut gate = RedactGate::new();
    let now = Instant::now();
    let one = Bytes::from(request(&[rec("mail a@b.io")]));
    let two = Bytes::from(request(&[rec("a@b.io c@d.io"), rec("e@f.io")]));

    // Both are asked for before either is done.
    let first = gate.ask_at(now);
    let second = gate.ask_at(now);
    assert_eq!((first, second), (Redaction::Run, Redaction::Run));
    let (b, b_hits) = pipe.govern(two, second);
    let (a, a_hits) = pipe.govern(one.clone(), first);
    assert_eq!((a_hits.clone(), b_hits.clone()), (vec![1], vec![3]));
    assert_eq!((a.stats.redactions, b.stats.redactions), (1, 3));
    gate.count(&b_hits);
    gate.count(&a_hits);
    assert_eq!(gate.matches_of(0), 4);
    assert_eq!(gate.matches_of(1), 0, "there is no such rule");

    for i in 0..5 {
        let (out, hits) = pipe.govern(one.clone(), Redaction::Panicked);
        assert!(out.stats.redact_bypassed);
        assert_eq!(hits, vec![0]);
        assert_eq!(gate.fault_at(now), i == 4, "the fifth opens the breaker");
    }
    let held = gate.ask_at(now);
    assert_eq!(held, Redaction::HeldBack);
    let (out, hits) = pipe.govern(one.clone(), held);
    assert_eq!(out.output.contiguous(), one.to_vec());
    assert_eq!(hits, vec![0]);
}

#[test]
fn matches_are_counted_from_request_to_request() {
    let mut pipe = pipeline(email_config(&["body"]));
    assert_eq!(pipe.redaction_counts(), vec![("email", 0)]);
    for n in 1..4u64 {
        pipe.process(Bytes::from(request(&[rec("a@b.io"), rec("c@d.io")])));
        assert_eq!(pipe.redaction_counts(), vec![("email", 2 * n)]);
    }
}
