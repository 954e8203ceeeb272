//! Parsing of OTLP logs requests.

use archiv_agent::envelope::{Envelope, RecordView, SampleVerdict};
use archiv_agent::guard::{guarded, Stage, StageError, StageOutcome};
use archiv_agent::ingest::{ParseStage, MALFORMED};
use archiv_agent::lists::RecordList;
use archiv_agent::otlp::{parse_export_logs_request, parse_resource_logs};
use archiv_agent::redact::{CompileLimits, FieldSelector, RedactEngine, RedactStage, RuleSpec};
use archiv_agent::sampling::{bucket, keep};
use archiv_agent::wire::{ParseError, WireCursor};
use bytes::Bytes;

const TRACE_ID: [u8; 16] = [
    0x00, 0x11, 0x22, 0x33, 0x44, 0x55, 0x66, 0x77, 0x88, 0x99, 0xAA, 0xBB, 0xCC, 0xDD, 0xEE, 0xFF,
];

fn varint(mut v: u64, out: &mut Vec<u8>) {
    loop {
        let b: u8 = (v & 0x7F) as u8;
        v >>= 7;
        if v == 0 {
            out.push(b);
            break;
        }
        out.push(b | 0x80);
    }
}

fn field_len(field: u32, payload: &[u8], out: &mut Vec<u8>) {
    varint(u64::from(field) << 3 | 2, out);
    varint(payload.len() as u64, out);
    out.extend_from_slice(payload);
}

fn field_varint(field: u32, v: u64, out: &mut Vec<u8>) {
    varint(u64::from(field) << 3, out);
    varint(v, out);
}

fn any_string(s: &str) -> Vec<u8> {
    let mut out: Vec<u8> = Vec::new();
    field_len(1, s.as_bytes(), &mut out);
    out
}

fn any_int(v: u64) -> Vec<u8> {
    let mut out: Vec<u8> = Vec::new();
    field_varint(3, v, &mut out);
    out
}

fn key_value(key: &str, value_any: &[u8]) -> Vec<u8> {
    let mut out: Vec<u8> = Vec::new();
    field_len(1, key.as_bytes(), &mut out);
    field_len(2, value_any, &mut out);
    out
}

#[derive(Clone)]
struct Rec<'a> {
    body: Option<Vec<u8>>,
    trace_id: Option<&'a [u8]>,
    attrs: Vec<Vec<u8>>,
    noise: bool,
}

impl Rec<'_> {
    /// A record; noise adds a timestamp, severity 9, a severity text, flags
    /// and a span id.
    fn encode(&self) -> Vec<u8> {
        let mut out: Vec<u8> = Vec::new();
        if self.noise {
            varint(1 << 3 | 1, &mut out);
            out.extend_from_slice(&1_700_000_000_000_000_000u64.to_le_bytes());
            field_varint(2, 9, &mut out);
            field_len(3, b"INFO", &mut out);
        }
        if let Some(body) = &self.body {
            field_len(5, body, &mut out);
        }
        for attr in &self.attrs {
            field_len(6, attr, &mut out);
        }
        if self.noise {
            varint(8 << 3 | 5, &mut out);
            out.extend_from_slice(&1u32.to_le_bytes());
        }
        if let Some(tid) = self.trace_id {
            field_len(9, tid, &mut out);
        }
        if self.noise {
            field_len(10, &[0xAB; 8], &mut out);
        }
        out
    }
}

fn request(records: &[Rec]) -> Vec<u8> {
    let mut scope_logs: Vec<u8> = Vec::new();
    field_len(1, &key_value("scope", &any_string("1.0")), &mut scope_logs);
    for r in records {
        field_len(2, &r.encode(), &mut scope_logs);
    }
    let mut resource: Vec<u8> = Vec::new();
    field_len(
        1,
        &key_value("service.name", &any_string("checkout")),
        &mut resource,
    );
    let mut resource_logs: Vec<u8> = Vec::new();
    field_len(1, &resource, &mut resource_logs);
    field_len(2, &scope_logs, &mut resource_logs);
    let mut req: Vec<u8> = Vec::new();
    field_len(1, &resource_logs, &mut req);
    req
}

fn at(records: &RecordList, i: usize) -> &RecordView {
    records.get(i).expect("record")
}

fn email_stage() -> RedactStage {
    RedactStage::new(
        RedactEngine::compile(
            vec![RuleSpec {
                name: "email".to_string(),
                pattern: r"[A-Za-z0-9._%+-]+@[A-Za-z0-9.-]+\.[A-Za-z]{2,}".to_string(),
                mask: "[REDACTED:email]".to_string(),
                fields: vec![
                    FieldSelector::Body,
                    FieldSelector::Attrs("user.*".to_string()),
                ],
            }],
            CompileLimits::default(),
        )
        .expect("rule compiles"),
    )
}

#[test]
fn views_point_at_the_right_bytes() {
    let rec1 = Rec {
        body: Some(any_string("payment accepted for order 7781")),
        trace_id: Some(&TRACE_ID),
        attrs: vec![
            key_value("user.email", &any_string("alice@example.com")),
            key_value("retries", &any_int(3)), // not a string: skipped
        ],
        noise: true,
    };
    let rec2 = Rec {
        body: Some(any_string("second record")),
        trace_id: None,
        attrs: vec![],
        noise: false,
    };

    let buf = request(&[rec1, rec2]);
    let mut records = RecordList::new();
    parse_export_logs_request(&buf, &mut records).expect("valid request parses");

    assert_eq!(records.len(), 2);

    let r1 = at(&records, 0);
    assert_eq!(
        &buf[r1.body.start..r1.body.end],
        b"payment accepted for order 7781"
    );
    assert_eq!(r1.attrs.len(), 1, "int-valued attr must be skipped");
    let a = r1.attrs.get(0).expect("attribute");
    assert_eq!(&buf[a.key.start..a.key.end], b"user.email");
    assert_eq!(&buf[a.value.start..a.value.end], b"alice@example.com");

    let raw = Bytes::from(buf);
    assert_eq!(r1.trace_id_bytes(&raw), Some(TRACE_ID));

    let r2 = at(&records, 1);
    assert_eq!(&raw[r2.body.start..r2.body.end], b"second record");
    assert_eq!(r2.trace_id, None);
}

#[test]
fn non_string_body_yields_empty_view() {
    let buf = request(&[Rec {
        body: Some(any_int(42)),
        trace_id: None,
        attrs: vec![],
        noise: false,
    }]);

    let mut records = RecordList::new();
    parse_export_logs_request(&buf, &mut records).expect("parses");
    assert_eq!(records.len(), 1);
    assert!(
        at(&records, 0).body.is_empty(),
        "int body must not become a text view"
    );
}

#[test]
fn malformed_trace_id_length_is_ignored() {
    let short_id = [0x01u8; 5];
    let buf = request(&[Rec {
        body: Some(any_string("x")),
        trace_id: Some(&short_id),
        attrs: vec![],
        noise: false,
    }]);

    let mut records = RecordList::new();
    parse_export_logs_request(&buf, &mut records).expect("parses");
    assert_eq!(at(&records, 0).trace_id, None);
}

#[test]
fn truncated_and_overrunning_buffers_error_without_panic() {
    let full = request(&[Rec {
        body: Some(any_string("hello")),
        trace_id: Some(&TRACE_ID),
        attrs: vec![],
        noise: true,
    }]);

    for cut in 0..full.len() {
        let mut records = RecordList::new();
        let _ = parse_export_logs_request(&full[..cut], &mut records);
    }

    // A length that overruns its enclosing message is rejected.
    let mut evil: Vec<u8> = Vec::new();
    varint(1 << 3 | 2, &mut evil); // field 1, wire 2
    varint(1_000_000, &mut evil); // claims 1 MB
    evil.push(0x00); // holds one byte
    let mut records = RecordList::new();
    assert!(matches!(
        parse_export_logs_request(&evil, &mut records),
        Err(ParseError::LengthOverrun(_))
    ));
}

#[test]
fn extracts_severity_namespace_and_service_name() {
    let lr = Rec {
        body: Some(any_string("hello")),
        trace_id: Some(&TRACE_ID),
        attrs: vec![],
        noise: true, // severity 9
    }
    .encode();

    let mut scope_logs: Vec<u8> = Vec::new();
    field_len(2, &lr, &mut scope_logs);
    let mut resource: Vec<u8> = Vec::new();
    field_len(
        1,
        &key_value("k8s.namespace.name", &any_string("payments")),
        &mut resource,
    );
    field_len(
        1,
        &key_value("service.name", &any_string("checkout")),
        &mut resource,
    );
    let mut rl: Vec<u8> = Vec::new();
    field_len(1, &resource, &mut rl);
    field_len(2, &scope_logs, &mut rl);
    let mut req: Vec<u8> = Vec::new();
    field_len(1, &rl, &mut req);

    let mut records = RecordList::new();
    parse_export_logs_request(&req, &mut records).expect("parses");
    let raw = Bytes::from(req);

    assert_eq!(records.len(), 1);
    let r = at(&records, 0);
    assert_eq!(r.severity_number, Some(9));
    assert_eq!(r.namespace_bytes(&raw), Some(b"payments".as_slice()));
    assert_eq!(r.service_name_bytes(&raw), Some(b"checkout".as_slice()));
}

#[test]
fn a_resource_behind_its_scopes_counts_too() {
    let lr = Rec {
        body: Some(any_string("hello")),
        trace_id: None,
        attrs: vec![],
        noise: false,
    }
    .encode();
    let mut scope_logs: Vec<u8> = Vec::new();
    field_len(2, &lr, &mut scope_logs);
    let mut resource: Vec<u8> = Vec::new();
    field_len(
        1,
        &key_value("k8s.namespace.name", &any_string("late")),
        &mut resource,
    );
    let mut rl: Vec<u8> = Vec::new();
    field_len(2, &scope_logs, &mut rl);
    field_len(1, &resource, &mut rl);
    let mut req: Vec<u8> = Vec::new();
    field_len(1, &rl, &mut req);

    let mut records = RecordList::new();
    parse_export_logs_request(&req, &mut records).expect("parses");
    let raw = Bytes::from(req);
    assert_eq!(
        at(&records, 0).namespace_bytes(&raw),
        Some(b"late".as_slice())
    );
}

#[test]
fn parse_stage_fails_open_on_garbage() {
    // 0xFF runs read as tags with wire type 7.
    let mut env = Envelope::new(Bytes::from_static(&[0xFF; 32]));
    let outcome = guarded(&mut ParseStage, &mut env);
    assert!(matches!(outcome, StageOutcome::Bypassed(_)));
    assert_eq!(env.records.len(), 0);
    assert_eq!(env.raw, Bytes::from_static(&[0xFF; 32]));
}

#[test]
fn otlp_bytes_flow_through_parse_sample_redact() {
    let keep_id = [0x11u8; 16];
    let rec1 = Rec {
        body: Some(any_string("password reset link sent to alice@example.com")),
        trace_id: Some(&keep_id),
        attrs: vec![key_value("user.email", &any_string("alice@example.com"))],
        noise: true,
    };
    let rec2 = Rec {
        body: Some(any_string("debug noise, no pii")),
        trace_id: Some(&keep_id),
        attrs: vec![],
        noise: false,
    };

    let mut env = Envelope::new(Bytes::from(request(&[rec1, rec2])));

    assert!(matches!(
        guarded(&mut ParseStage, &mut env),
        StageOutcome::Applied
    ));
    assert_eq!(env.records.len(), 2);

    let target: u8 = 100;
    let mut verdicts: Vec<SampleVerdict> = Vec::new();
    for i in 0..env.records.len() {
        verdicts.push(match at(&env.records, i).trace_id_bytes(&env.raw) {
            Some(id) if keep(&id, target) => SampleVerdict::Keep,
            Some(_) => SampleVerdict::Drop,
            None => SampleVerdict::Keep,
        });
    }
    env.decisions.set_sampling(verdicts);
    assert_eq!(env.decisions.sampling_verdict(0), SampleVerdict::Keep);

    let mut stage = email_stage();
    assert!(matches!(
        guarded(&mut stage, &mut env),
        StageOutcome::Applied
    ));

    // Put the body of record 0 together again.
    let body = at(&env.records, 0).body.clone();
    let mut spans: Vec<_> = env
        .decisions
        .redactions_for(0)
        .into_iter()
        .filter(|r| r.target.start >= body.start && r.target.end <= body.end)
        .collect();
    spans.sort_by_key(|r| r.target.start);
    let mut out: Vec<u8> = Vec::new();
    let mut cursor: usize = body.start;
    for span in spans {
        out.extend_from_slice(&env.raw[cursor..span.target.start]);
        out.extend_from_slice(stage.engine().mask_bytes(span.mask).expect("mask"));
        cursor = span.target.end;
    }
    out.extend_from_slice(&env.raw[cursor..body.end]);

    assert_eq!(out, b"password reset link sent to [REDACTED:email]");

    assert_eq!(env.decisions.redactions_for(1).len(), 0);
    assert_eq!(env.decisions.redactions_for(0).len(), 2); // body and user.email

    // The verdicts survive redaction.
    assert_eq!(env.decisions.sampling_verdict(1), SampleVerdict::Keep);
}

#[test]
fn drop_verdicts_follow_the_frozen_rule_end_to_end() {
    let ids: Vec<[u8; 16]> = (0u8..32).map(|i| [i; 16]).collect();
    let target: u8 = 25;

    let records: Vec<Rec> = ids
        .iter()
        .map(|id| Rec {
            body: Some(any_string("record")),
            trace_id: Some(id.as_slice()),
            attrs: vec![],
            noise: false,
        })
        .collect();

    let mut env = Envelope::new(Bytes::from(request(&records)));
    assert!(matches!(
        guarded(&mut ParseStage, &mut env),
        StageOutcome::Applied
    ));
    assert_eq!(env.records.len(), ids.len());

    for i in 0..env.records.len() {
        let id = at(&env.records, i)
            .trace_id_bytes(&env.raw)
            .expect("trace id parsed");
        assert_eq!(id, ids[i], "parsed trace_id must be byte-identical");
        assert_eq!(keep(&id, target), bucket(&id) < target);
    }
}

#[test]
fn each_wire_error_tells_what_and_where() {
    let mut records = RecordList::new();
    // A tag that does not end.
    assert_eq!(
        parse_export_logs_request(&[0x80], &mut records),
        Err(ParseError::Truncated(1))
    );
    // Eleven digits.
    assert!(matches!(
        parse_export_logs_request(&[0x80; 11], &mut records),
        Err(ParseError::VarintOverflow(_))
    ));
    // Groups are not supported.
    assert!(matches!(
        parse_export_logs_request(&[0x0B], &mut records),
        Err(ParseError::UnsupportedWire { wire: 3, .. })
    ));
    // Two bytes are stated, one is there.
    assert!(matches!(
        parse_export_logs_request(&[0x0A, 0x02, 0x00], &mut records),
        Err(ParseError::LengthOverrun(_))
    ));
    assert_eq!(records.len(), 0);
}

#[test]
fn cursors_read_varints() {
    let mut bytes: Vec<u8> = Vec::new();
    for v in [0u64, 1, 127, 128, 300, u64::MAX] {
        varint(v, &mut bytes);
    }
    let mut cursor = WireCursor::new(&bytes, 0..bytes.len());
    for v in [0u64, 1, 127, 128, 300, u64::MAX] {
        assert_eq!(cursor.varint(), Ok(v));
    }
    assert!(cursor.done());
    assert_eq!(cursor.pos(), bytes.len());
}

#[test]
fn cursors_do_not_leave_their_window() {
    let bytes = [0x08u8, 0x96, 0x01, 0xFF];
    let mut cursor = WireCursor::new(&bytes, 0..3);
    assert_eq!(cursor.tag(), Ok((1, 0)));
    assert_eq!(cursor.varint(), Ok(150));
    assert!(cursor.done());
}

#[test]
fn empty_request_holds_nothing() {
    let mut records = RecordList::new();
    assert_eq!(parse_export_logs_request(&[], &mut records), Ok(()));
    assert_eq!(records.len(), 0);
}

#[test]
fn views_lie_in_the_request() {
    let buf = request(&[
        Rec {
            body: Some(any_string("text")),
            trace_id: Some(&TRACE_ID),
            attrs: vec![key_value("a", &any_string("")), key_value("", &any_string("b"))],
            noise: true,
        },
        Rec {
            body: None,
            trace_id: None,
            attrs: vec![],
            noise: false,
        },
    ]);
    let mut records = RecordList::new();
    parse_export_logs_request(&buf, &mut records).expect("parses");
    assert_eq!(records.len(), 2);
    for i in 0..records.len() {
        let r = at(&records, i);
        let mut views = vec![r.body.clone()];
        views.extend(r.trace_id.clone());
        views.extend(r.namespace.clone());
        views.extend(r.service_name.clone());
        for k in 0..r.attrs.len() {
            let a = r.attrs.get(k).expect("attribute");
            views.push(a.key.clone());
            views.push(a.value.clone());
        }
        for v in views {
            assert!(v.start <= v.end && v.end <= buf.len());
        }
    }
    assert_eq!(at(&records, 0).attrs.len(), 2);
}

#[test]
fn the_place_of_a_resource_does_not_matter() {
    let lr = Rec {
        body: Some(any_string("hello")),
        trace_id: None,
        attrs: vec![],
        noise: false,
    }
    .encode();
    let mut scope_logs: Vec<u8> = Vec::new();
    field_len(2, &lr, &mut scope_logs);
    let mut resource: Vec<u8> = Vec::new();
    field_len(
        1,
        &key_value("k8s.namespace.name", &any_string("ns")),
        &mut resource,
    );
    let mut seen: Vec<(Vec<u8>, Vec<u8>)> = Vec::new();
    for place in 0..3 {
        let mut rl: Vec<u8> = Vec::new();
        for i in 0..3 {
            if i == place {
                field_len(1, &resource, &mut rl);
            }
            if i < 2 {
                field_len(2, &scope_logs, &mut rl);
            }
        }
        let mut req: Vec<u8> = Vec::new();
        field_len(1, &rl, &mut req);
        let mut records = RecordList::new();
        parse_export_logs_request(&req, &mut records).expect("parses");
        assert_eq!(records.len(), 2);
        let raw = Bytes::from(req);
        for i in 0..2 {
            let r = at(&records, i);
            seen.push((
                r.namespace_bytes(&raw).expect("a namespace").to_vec(),
                raw[r.body.clone()].to_vec(),
            ));
        }
    }
    for s in &seen {
        assert_eq!(s, &(b"ns".to_vec(), b"hello".to_vec()));
    }
}

#[test]
fn a_cursor_stays_where_a_read_went_wrong() {
    // A length that overruns: the length itself is read.
    let bytes = [0x05u8, 0x00];
    let mut cursor = WireCursor::new(&bytes, 0..2);
    assert!(matches!(
        cursor.len_range(),
        Err(ParseError::LengthOverrun(_))
    ));
    assert_eq!(cursor.pos(), 1);
    // Eight bytes are wanted, two are there: nothing is skipped.
    let mut cursor = WireCursor::new(&bytes, 0..2);
    assert!(cursor.skip(1).is_err());
    assert_eq!(cursor.pos(), 0);
    assert!(cursor.skip(7).is_err());
    assert_eq!(cursor.pos(), 0);
    // A varint that does not end is read up to the end.
    let open = [0x80u8, 0x80];
    let mut cursor = WireCursor::new(&open, 0..2);
    assert!(matches!(cursor.varint(), Err(ParseError::Truncated(_))));
    assert_eq!(cursor.pos(), 2);
}

#[test]
fn a_request_that_does_not_parse_is_told_by_name() {
    let mut env = Envelope::new(Bytes::from_static(&[0xFF; 32]));
    assert!(matches!(
        ParseStage.apply(&mut env),
        Err(StageError::Internal(MALFORMED))
    ));
}

#[test]
fn records_before_an_error_have_been_read() {
    let lr = Rec {
        body: Some(any_string("first")),
        trace_id: None,
        attrs: vec![],
        noise: false,
    }
    .encode();
    let mut scope_logs: Vec<u8> = Vec::new();
    field_len(2, &lr, &mut scope_logs);
    // A record whose body overruns it.
    field_len(2, &[0x2A, 0x05, 0x0A], &mut scope_logs);
    let mut rl: Vec<u8> = Vec::new();
    field_len(2, &scope_logs, &mut rl);
    let mut req: Vec<u8> = Vec::new();
    field_len(1, &rl, &mut req);

    let mut records = RecordList::new();
    parse_export_logs_request(&request(&[]), &mut records).expect("parses");
    assert!(matches!(
        parse_export_logs_request(&req, &mut records),
        Err(ParseError::LengthOverrun(_))
    ));
    assert_eq!(records.len(), 1);
    let body = at(&records, 0).body.clone();
    assert_eq!(&req[body], b"first");

    let mut alone = RecordList::new();
    assert!(parse_resource_logs(&rl, 0..rl.len(), &mut alone).is_err());
    assert_eq!(alone.len(), 1);
    let body = at(&alone, 0).body.clone();
    assert_eq!(&rl[body], b"first");
}
