//! Assembly of governed requests.

use archiv_agent::envelope::{Envelope, MaskId, Redaction, SampleVerdict};
use archiv_agent::export::{
    assemble, put_varint, varint_len, AssembleError, AssembledPayload, MaskTable,
};
use archiv_agent::guard::{guarded, Stage, StageId, StageOutcome};
use archiv_agent::ingest::ParseStage;
use archiv_agent::lists::RecordList;
use archiv_agent::otlp::parse_export_logs_request;
use archiv_agent::redact::{CompileLimits, FieldSelector, RedactEngine, RedactStage, RuleSpec};
use bytes::{Bytes, BytesMut};

const KEEP: [u8; 16] = [0x11; 16];
const DROP: [u8; 16] = [0x22; 16];

fn varint(mut v: u64, out: &mut Vec<u8>) {
    loop {
        let b: u8 = (v & 0x7F) as u8;
        v >>= 7;
        if v == 0 {
            out.push(b);
            break;
        }
        out.push(b | 0x80);
    }
}

fn field_len(field: u32, payload: &[u8], out: &mut Vec<u8>) {
    varint(u64::from(field) << 3 | 2, out);
    varint(payload.len() as u64, out);
    out.extend_from_slice(payload);
}

fn field_varint(field: u32, v: u64, out: &mut Vec<u8>) {
    varint(u64::from(field) << 3, out);
    varint(v, out);
}

fn any_string(s: &str) -> Vec<u8> {
    let mut out: Vec<u8> = Vec::new();
    field_len(1, s.as_bytes(), &mut out);
    out
}

fn any_int(v: u64) -> Vec<u8> {
    let mut out: Vec<u8> = Vec::new();
    field_varint(3, v, &mut out);
    out
}

fn key_value(key: &str, value_any: &[u8]) -> Vec<u8> {
    let mut out: Vec<u8> = Vec::new();
    field_len(1, key.as_bytes(), &mut out);
    field_len(2, value_any, &mut out);
    out
}

#[derive(Clone)]
struct Rec<'a> {
    body: Option<Vec<u8>>,
    trace_id: Option<&'a [u8]>,
    attrs: Vec<Vec<u8>>,
    noise: bool,
}

impl Rec<'_> {
    /// A record; noise adds a timestamp, severity 9, a severity text, flags
    /// and a span id.
    fn encode(&self) -> Vec<u8> {
        let mut out: Vec<u8> = Vec::new();
        if self.noise {
            varint(1 << 3 | 1, &mut out);
            out.extend_from_slice(&1_700_000_000_000_000_000u64.to_le_bytes());
            field_varint(2, 9, &mut out);
            field_len(3, b"INFO", &mut out);
        }
        if let Some(body) = &self.body {
            field_len(5, body, &mut out);
        }
        for attr in &self.attrs {
            field_len(6, attr, &mut out);
        }
        if self.noise {
            varint(8 << 3 | 5, &mut out);
            out.extend_from_slice(&1u32.to_le_bytes());
        }
        if let Some(tid) = self.trace_id {
            field_len(9, tid, &mut out);
        }
        if self.noise {
            field_len(10, &[0xAB; 8], &mut out);
        }
        out
    }
}

fn request(records: &[Rec]) -> Vec<u8> {
    let mut scope_logs: Vec<u8> = Vec::new();
    field_len(1, &key_value("scope", &any_string("1.0")), &mut scope_logs);
    for r in records {
        field_len(2, &r.encode(), &mut scope_logs);
    }
    let mut resource: Vec<u8> = Vec::new();
    field_len(
        1,
        &key_value("service.name", &any_string("checkout")),
        &mut resource,
    );
    let mut resource_logs: Vec<u8> = Vec::new();
    field_len(1, &resource, &mut resource_logs);
    field_len(2, &scope_logs, &mut resource_logs);
    let mut req: Vec<u8> = Vec::new();
    field_len(1, &resource_logs, &mut req);
    req
}

fn parsed_env(buf: Vec<u8>) -> Envelope {
    let mut env = Envelope::new(Bytes::from(buf));
    assert!(matches!(
        guarded(&mut ParseStage, &mut env),
        StageOutcome::Applied
    ));
    env
}

fn email_stage() -> (RedactStage, MaskTable) {
    let engine = RedactEngine::compile(
        vec![RuleSpec {
            name: "email".to_string(),
            pattern: r"[A-Za-z0-9._%+-]+@[A-Za-z0-9.-]+\.[A-Za-z]{2,}".to_string(),
            mask: "[REDACTED:email]".to_string(),
            fields: vec![
                FieldSelector::Body,
                FieldSelector::Attrs("user.*".to_string()),
            ],
        }],
        CompileLimits::default(),
    )
    .unwrap();
    let masks = MaskTable::new(engine.masks().into_iter().map(str::to_string).collect());
    (RedactStage::new(engine), masks)
}

fn body_of(text: &str) -> Rec<'_> {
    Rec {
        body: Some(any_string(text)),
        trace_id: Some(&KEEP),
        attrs: vec![],
        noise: false,
    }
}

#[test]
fn varint_len_matches_encoding() {
    for v in [
        0u64,
        1,
        127,
        128,
        16_383,
        16_384,
        u64::from(u32::MAX),
        u64::MAX,
    ] {
        let mut buf = BytesMut::new();
        put_varint(v, &mut buf);
        assert_eq!(varint_len(v), buf.len(), "v={v}");
    }
}

#[test]
fn varints_are_low_digit_first() {
    let mut buf = BytesMut::new();
    put_varint(300, &mut buf);
    assert_eq!(&buf[..], &[0xAC, 0x02]);
    assert_eq!(varint_len(u64::MAX), 10);
}

#[test]
fn identity_when_no_decisions_reuses_raw_buffer() {
    let buf = request(&[Rec {
        body: Some(any_string("nothing to do here")),
        trace_id: Some(&KEEP),
        attrs: vec![key_value("k", &any_string("v"))],
        noise: true,
    }]);
    let env = parsed_env(buf.clone());
    let masks = MaskTable::new(Vec::new());

    let out = assemble(&env, &masks).unwrap();
    assert_eq!(out.contiguous(), buf);
    // One chunk, and it is a view of the request, not a copy.
    assert_eq!(out.chunks().len(), 1);
    assert_eq!(out.chunks()[0].as_ptr(), env.raw.as_ptr());
}

#[test]
fn dropping_a_record_matches_a_fresh_encode_without_it() {
    let kept = Rec {
        body: Some(any_string("keep me")),
        trace_id: Some(&KEEP),
        attrs: vec![],
        noise: true,
    };
    let dropped = Rec {
        body: Some(any_string("drop me")),
        trace_id: Some(&DROP),
        attrs: vec![key_value("user.email", &any_string("gone@example.com"))],
        noise: true,
    };

    let mut env = parsed_env(request(&[kept.clone(), dropped.clone()]));
    env.decisions
        .set_sampling(vec![SampleVerdict::Keep, SampleVerdict::Drop]);

    let masks = MaskTable::new(Vec::new());
    let out = assemble(&env, &masks).unwrap();

    let expected = request(&[kept]);
    assert_eq!(out.contiguous(), expected);
}

#[test]
fn redaction_matches_a_fresh_encode_with_masked_text() {
    let (mut stage, masks) = email_stage();

    let original = Rec {
        body: Some(any_string("reset link for alice@example.com sent")),
        trace_id: Some(&KEEP),
        attrs: vec![
            key_value("user.email", &any_string("alice@example.com")),
            key_value("note", &any_string("cc bob@example.com")), // not selected
            key_value("count", &any_int(5)),                      // not a string
        ],
        noise: true,
    };
    let mut env = parsed_env(request(&[original]));
    assert!(matches!(stage.apply(&mut env), Ok(())));

    let out = assemble(&env, &masks).unwrap();

    let expected = request(&[Rec {
        body: Some(any_string("reset link for [REDACTED:email] sent")),
        trace_id: Some(&KEEP),
        attrs: vec![
            key_value("user.email", &any_string("[REDACTED:email]")),
            key_value("note", &any_string("cc bob@example.com")),
            key_value("count", &any_int(5)),
        ],
        noise: true,
    }]);
    assert_eq!(out.contiguous(), expected);
}

#[test]
fn drop_and_redact_together_across_multiple_records() {
    let (mut stage, masks) = email_stage();

    let r0 = Rec {
        body: Some(any_string("first, mail carol@corp.io ok")),
        trace_id: Some(&KEEP),
        attrs: vec![key_value("user.id", &any_string("dan@corp.io"))],
        noise: false,
    };
    let r1_dropped = Rec {
        body: Some(any_string("second dropped mail eve@corp.io")),
        trace_id: Some(&DROP),
        attrs: vec![],
        noise: true,
    };
    let r2 = Rec {
        body: Some(any_string("third clean")),
        trace_id: Some(&KEEP),
        attrs: vec![],
        noise: true,
    };

    let mut env = parsed_env(request(&[r0, r1_dropped, r2.clone()]));
    assert!(matches!(stage.apply(&mut env), Ok(())));
    env.decisions.set_sampling(vec![
        SampleVerdict::Keep,
        SampleVerdict::Drop,
        SampleVerdict::Keep,
    ]);

    let out = assemble(&env, &masks).unwrap();

    let expected = request(&[
        Rec {
            body: Some(any_string("first, mail [REDACTED:email] ok")),
            trace_id: Some(&KEEP),
            attrs: vec![key_value("user.id", &any_string("[REDACTED:email]"))],
            noise: false,
        },
        r2,
    ]);
    assert_eq!(out.contiguous(), expected);
}

#[test]
fn payload_content_chunks_are_views_into_raw() {
    let (mut stage, masks) = email_stage();
    let mut env = parsed_env(request(&[body_of("mail frank@corp.io now")]));
    assert!(matches!(stage.apply(&mut env), Ok(())));

    let out = assemble(&env, &masks).unwrap();
    let raw_start: usize = env.raw.as_ptr() as usize;
    let raw_end: usize = raw_start + env.raw.len();

    let mut viewed: usize = 0;
    for chunk in out.chunks() {
        let p: usize = chunk.as_ptr() as usize;
        if p >= raw_start && p < raw_end {
            viewed += chunk.len();
        }
    }
    // What stands around the mask is viewed, not copied.
    assert!(viewed >= "mail ".len() + " now".len());
}

#[test]
fn unknown_mask_id_is_an_error_not_a_panic() {
    let (mut stage, _real) = email_stage();
    let mut env = parsed_env(request(&[body_of("mail grace@corp.io")]));
    assert!(matches!(stage.apply(&mut env), Ok(())));

    let empty = MaskTable::new(Vec::new());
    assert!(assemble(&env, &empty).is_err());
    assert!(matches!(
        assemble(&env, &empty),
        Err(AssembleError::UnknownMask(0))
    ));
}

#[test]
fn records_that_parsing_did_not_meet_are_an_error() {
    let mut env = Envelope::new(Bytes::from(request(&[body_of("a"), body_of("b")])));
    env.decisions.set_sampling(vec![SampleVerdict::Drop]);
    assert!(matches!(
        assemble(&env, &MaskTable::new(Vec::new())),
        Err(AssembleError::RecordCountMismatch {
            parsed: 0,
            walked: 2
        })
    ));
}

#[test]
fn bytes_that_are_no_request_are_an_error() {
    let mut env = Envelope::new(Bytes::from_static(&[0xFF; 16]));
    env.decisions.set_sampling(vec![SampleVerdict::Drop]);
    assert!(matches!(
        assemble(&env, &MaskTable::new(Vec::new())),
        Err(AssembleError::Wire(_))
    ));
}

#[test]
fn overlapping_spans_mask_once() {
    let mut env = parsed_env(request(&[body_of("abcdefgh")]));
    let start: usize = env.records.get(0).expect("record").body.start;
    let id = StageId("redact-regex");
    for (from, to, mask) in [(4usize, 6usize, 1u32), (0, 3, 0), (2, 5, 1)] {
        env.decisions.push_redaction(
            id,
            0,
            Redaction {
                target: start + from..start + to,
                mask: MaskId(mask),
            },
        );
    }
    let masks = MaskTable::new(vec!["<x>".to_string(), "<y>".to_string()]);
    let out = assemble(&env, &masks).unwrap();
    // The second span starts inside the first one and is left out.
    assert_eq!(out.contiguous(), request(&[body_of("<x>d<y>gh")]));
}

#[test]
fn output_parses_to_the_kept_records() {
    let (mut stage, masks) = email_stage();
    let mut env = parsed_env(request(&[
        body_of("one a@b.io"),
        body_of("two"),
        body_of("three c@d.io"),
    ]));
    assert!(matches!(stage.apply(&mut env), Ok(())));
    env.decisions
        .set_sampling(vec![SampleVerdict::Keep, SampleVerdict::Drop]);
    let out = assemble(&env, &masks).unwrap().contiguous();

    let mut records = RecordList::new();
    parse_export_logs_request(&out, &mut records).expect("output parses");
    assert_eq!(records.len(), 2);
    let raw = Bytes::from(out);
    let texts: Vec<&[u8]> = (0..2usize)
        .map(|i| {
            let body = &records.get(i).expect("record").body;
            &raw[body.start..body.end]
        })
        .collect();
    assert_eq!(texts[0], b"one [REDACTED:email]");
    assert_eq!(texts[1], b"three [REDACTED:email]");
    for i in 0..2usize {
        let r = records.get(i).expect("record");
        assert_eq!(r.trace_id_bytes(&raw), Some(KEEP));
        assert_eq!(r.service_name_bytes(&raw), Some(b"checkout".as_slice()));
    }
}

#[test]
fn masks_are_found_by_their_id() {
    let masks = MaskTable::new(vec!["[A]".to_string(), "[B]".to_string()]);
    assert_eq!(
        masks.bytes(MaskId(1)).map(|b| b.to_vec()),
        Some(b"[B]".to_vec())
    );
    assert!(masks.bytes(MaskId(2)).is_none());
}

#[test]
fn passthrough_is_the_payload_itself() {
    let raw = Bytes::from_static(b"as it came");
    let p = AssembledPayload::passthrough(raw.clone());
    assert_eq!(p.len(), 10);
    assert!(!p.is_empty());
    assert_eq!(p.contiguous(), raw.to_vec());
    assert_eq!(p.chunks().len(), 1);
    assert_eq!(p.chunks()[0].as_ptr(), raw.as_ptr());
    assert!(AssembledPayload::passthrough(Bytes::new()).is_empty());
}

#[test]
fn a_value_that_is_malformed_behind_its_string_cannot_be_masked() {
    // The string is read; the tag behind it has a wire type that there is not.
    let mut value = any_string("mail grace@corp.io");
    value.push(0x0F);
    let (mut stage, masks) = email_stage();
    let mut env = parsed_env(request(&[Rec {
        body: Some(value),
        trace_id: Some(&KEEP),
        attrs: vec![],
        noise: false,
    }]));
    assert!(matches!(stage.apply(&mut env), Ok(())));
    assert!(matches!(
        assemble(&env, &masks),
        Err(AssembleError::Wire(_))
    ));
}
