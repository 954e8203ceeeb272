//! The redaction engine and its stage.

use archiv_agent::envelope::{AttrView, Envelope, MaskId, RecordView};
use archiv_agent::guard::{guarded, StageOutcome};
use archiv_agent::lists::AttrList;
use archiv_agent::redact::{
    CompileError, CompileLimits, FieldSelector, RedactEngine, RedactStage, RuleSpec,
};
use bytes::Bytes;
use std::ops::Range;

fn rule(name: &str, pattern: &str, mask: &str, fields: Vec<FieldSelector>) -> RuleSpec {
    RuleSpec {
        name: name.to_string(),
        pattern: pattern.to_string(),
        mask: mask.to_string(),
        fields,
    }
}

fn attrs(pattern: &str) -> FieldSelector {
    FieldSelector::Attrs(pattern.to_string())
}

fn email_rule() -> RuleSpec {
    rule(
        "email",
        r"[A-Za-z0-9._%+-]+@[A-Za-z0-9.-]+\.[A-Za-z]{2,}",
        "[REDACTED:email]",
        vec![FieldSelector::Body, attrs("user.*")],
    )
}

fn email_stage() -> RedactStage {
    RedactStage::new(
        RedactEngine::compile(vec![email_rule()], CompileLimits::default())
            .expect("canonical rule compiles"),
    )
}

/// A field of the payload with its spans replaced.
fn masked(env: &Envelope, engine: &RedactEngine, record: usize, field: Range<usize>) -> Vec<u8> {
    let mut spans: Vec<_> = env
        .decisions
        .redactions_for(record)
        .into_iter()
        .filter(|r| r.target.start >= field.start && r.target.end <= field.end)
        .collect();
    spans.sort_by_key(|r| r.target.start);

    let mut out: Vec<u8> = Vec::new();
    let mut cursor: usize = field.start;
    for span in spans {
        out.extend_from_slice(&env.raw[cursor..span.target.start]);
        out.extend_from_slice(engine.mask_bytes(span.mask).expect("known mask"));
        cursor = span.target.end;
    }
    out.extend_from_slice(&env.raw[cursor..field.end]);
    out
}

/// An envelope with one record, whose body is the whole payload.
fn body_only(buf: Vec<u8>) -> (Envelope, Range<usize>) {
    let body = 0..buf.len();
    let mut env = Envelope::new(Bytes::from(buf));
    env.records.push(RecordView {
        body: body.clone(),
        trace_id: None,
        attrs: AttrList::new(),
        severity_number: None,
        namespace: None,
        service_name: None,
    });
    (env, body)
}

/// One record whose body and attributes are ranges of one buffer.
fn fixture() -> (Envelope, Range<usize>, Range<usize>, Range<usize>) {
    let mut buf: Vec<u8> = Vec::new();
    let mut push = |s: &str| -> Range<usize> {
        let start: usize = buf.len();
        buf.extend_from_slice(s.as_bytes());
        start..buf.len()
    };

    let body = push("login ok for alice@example.com from 10.0.0.7");
    let k1 = push("user.email");
    let v1 = push("bob@example.com");
    let k2 = push("request.note");
    let v2 = push("contact carol@example.com later");

    let mut list = AttrList::new();
    list.push(AttrView {
        key: k1,
        value: v1.clone(),
    });
    list.push(AttrView {
        key: k2,
        value: v2.clone(),
    });
    let mut env = Envelope::new(Bytes::from(buf));
    env.records.push(RecordView {
        body: body.clone(),
        trace_id: None,
        attrs: list,
        severity_number: None,
        namespace: None,
        service_name: None,
    });
    (env, body, v1, v2)
}

#[test]
fn compile_accepts_canonical_rules_and_dedups_masks() {
    let second = rule(
        "email-attrs",
        r"@[A-Za-z0-9.-]+",
        "[REDACTED:email]",
        vec![attrs("*")],
    );
    let engine =
        RedactEngine::compile(vec![email_rule(), second], CompileLimits::default()).unwrap();
    assert_eq!(engine.masks().len(), 1, "identical masks share one id");
    assert_eq!(
        engine.mask_bytes(MaskId(0)),
        Some(b"[REDACTED:email]".as_slice())
    );
}

#[test]
fn nested_repetition_is_rejected_at_compile() {
    for pattern in [r"(a+)+", r"([a-z]*)*", r"(?:\d+){3,}", r"((ab)+c)*"] {
        let spec = rule("bad", pattern, "[X]", vec![FieldSelector::Body]);
        let err = RedactEngine::compile(vec![spec], CompileLimits::default()).unwrap_err();
        assert!(
            matches!(err, CompileError::NestedRepetition { .. }),
            "{pattern} should be rejected, got: {err:?}"
        );
    }
}

#[test]
fn oversized_pattern_is_rejected_by_size_limit() {
    let spec = rule(
        "huge",
        r"(?:abcdefghij){1,1000}",
        "[X]",
        vec![FieldSelector::Body],
    );
    let err = RedactEngine::compile(vec![spec], CompileLimits { size_limit: 256 }).unwrap_err();
    assert!(matches!(err, CompileError::Regex { .. }), "got: {err:?}");
}

#[test]
fn guarded_stage_redacts_body_and_selected_attrs_only() {
    let (mut env, body, v1, v2) = fixture();
    let original = env.raw.clone();

    let mut stage = email_stage();
    let outcome = guarded(&mut stage, &mut env);
    assert!(matches!(outcome, StageOutcome::Applied));

    assert_eq!(
        masked(&env, stage.engine(), 0, body),
        b"login ok for [REDACTED:email] from 10.0.0.7".as_slice()
    );
    assert_eq!(
        masked(&env, stage.engine(), 0, v1),
        b"[REDACTED:email]".as_slice()
    );
    // Not selected, although the pattern would match.
    assert_eq!(
        masked(&env, stage.engine(), 0, v2),
        b"contact carol@example.com later".as_slice()
    );

    assert_eq!(env.raw, original);
    assert_eq!(stage.counts(), vec![("email", 2)]);
}

#[test]
fn clean_record_produces_no_spans() {
    let (mut env, body) = body_only(b"healthy request completed status=200".to_vec());

    let mut stage = email_stage();
    let outcome = guarded(&mut stage, &mut env);
    assert!(matches!(outcome, StageOutcome::Applied));
    assert_eq!(env.decisions.redactions_for(0).len(), 0);
    assert_eq!(
        masked(&env, stage.engine(), 0, body),
        b"healthy request completed status=200".as_slice()
    );
}

#[test]
fn invalid_utf8_payload_is_handled_bytewise() {
    let mut buf: Vec<u8> = vec![0xFF, 0xFE, b' '];
    buf.extend_from_slice(b"dave@example.com");
    buf.extend_from_slice(&[0x80, 0x81]);
    let (mut env, body) = body_only(buf);

    let mut stage = email_stage();
    assert!(matches!(
        guarded(&mut stage, &mut env),
        StageOutcome::Applied
    ));
    let out = masked(&env, stage.engine(), 0, body);
    assert_eq!(
        out,
        [
            &[0xFF, 0xFE, b' '][..],
            b"[REDACTED:email]",
            &[0x80, 0x81][..]
        ]
        .concat()
    );
}

#[test]
fn a_rule_without_fields_is_rejected() {
    let err = RedactEngine::compile(
        vec![rule("idle", "x", "[X]", vec![])],
        CompileLimits::default(),
    )
    .unwrap_err();
    assert!(matches!(err, CompileError::NoFields { ref rule } if rule == "idle"));
}

#[test]
fn a_pattern_that_is_no_regex_is_rejected() {
    let err = RedactEngine::compile(
        vec![email_rule(), rule("open", "a(", "[X]", vec![FieldSelector::Body])],
        CompileLimits::default(),
    )
    .unwrap_err();
    assert!(matches!(err, CompileError::Regex { ref rule, .. } if rule == "open"));
}

#[test]
fn names_and_masks_are_in_rule_order() {
    let engine = RedactEngine::compile(
        vec![
            rule("a", "a", "[1]", vec![FieldSelector::Body]),
            rule("b", "b", "[2]", vec![FieldSelector::Body]),
            rule("c", "c", "[1]", vec![FieldSelector::Body]),
        ],
        CompileLimits::default(),
    )
    .unwrap();
    assert_eq!(engine.rule_names(), vec!["a", "b", "c"]);
    assert_eq!(engine.masks(), vec!["[1]", "[2]"]);
    assert_eq!(engine.mask_bytes(MaskId(1)), Some(b"[2]".as_slice()));
    assert_eq!(engine.mask_bytes(MaskId(2)), None);
}

#[test]
fn every_match_of_every_rule_becomes_a_span() {
    let mut stage = RedactStage::new(
        RedactEngine::compile(
            vec![
                rule("digits", "[0-9]+", "#", vec![FieldSelector::Body]),
                rule("xs", "x", "-", vec![FieldSelector::Body]),
                rule("attrs", "x", "-", vec![attrs("*")]),
            ],
            CompileLimits::default(),
        )
        .unwrap(),
    );
    let (mut env, _) = body_only(b"x1 22x 333".to_vec());
    assert!(matches!(
        guarded(&mut stage, &mut env),
        StageOutcome::Applied
    ));
    let targets: Vec<Range<usize>> = env
        .decisions
        .redactions_for(0)
        .into_iter()
        .map(|r| r.target)
        .collect();
    assert_eq!(targets, vec![1..2, 3..5, 7..10, 0..1, 5..6]);
    assert_eq!(stage.counts(), vec![("digits", 3), ("xs", 2), ("attrs", 0)]);
}

#[test]
fn views_outside_the_payload_are_skipped() {
    let mut env = Envelope::new(Bytes::from_static(b"a@b.io"));
    env.records.push(RecordView {
        body: 0..100,
        trace_id: None,
        attrs: AttrList::new(),
        severity_number: None,
        namespace: None,
        service_name: None,
    });
    let mut stage = email_stage();
    assert!(matches!(
        guarded(&mut stage, &mut env),
        StageOutcome::Applied
    ));
    assert_eq!(env.decisions.redaction_total(), 0);
}
