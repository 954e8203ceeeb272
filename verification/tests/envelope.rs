//! Envelopes, decisions and guarded stages.

use archiv_agent::envelope::{
    decode_hex_16, Decisions, Envelope, MaskId, RecordView, Redaction, SampleVerdict, STAGE_SAMPLE,
};
use archiv_agent::guard::{
    guarded, settle, Attempt, BypassReason, Stage, StageError, StageId, StageOutcome,
};
use archiv_agent::lists::AttrList;
use bytes::Bytes;
use std::ops::Range;

fn record(trace_id: Option<Range<usize>>) -> RecordView {
    RecordView {
        body: 0..0,
        trace_id,
        attrs: AttrList::new(),
        severity_number: None,
        namespace: None,
        service_name: None,
    }
}

fn span(target: Range<usize>, mask: u32) -> Redaction {
    Redaction {
        target,
        mask: MaskId(mask),
    }
}

struct FailingStage;

impl Stage for FailingStage {
    fn id(&self) -> StageId {
        StageId("failing-test")
    }
    fn apply(&mut self, env: &mut Envelope) -> Result<(), StageError> {
        env.decisions.push_redaction(self.id(), 0, span(3..4, 2));
        Err(StageError::Rule {
            rule_id: 7,
            reason: "bad pattern",
        })
    }
}

struct OkStage;

impl Stage for OkStage {
    fn id(&self) -> StageId {
        StageId("ok-test")
    }
    fn apply(&mut self, env: &mut Envelope) -> Result<(), StageError> {
        env.decisions.push_redaction(self.id(), 0, span(0..1, 1));
        Ok(())
    }
}

#[test]
fn trace_id_binary_and_hex_agree() {
    let hex = b"00112233445566778899aabbccddeeff";
    let bin: [u8; 16] = [
        0x00, 0x11, 0x22, 0x33, 0x44, 0x55, 0x66, 0x77, 0x88, 0x99, 0xaa, 0xbb, 0xcc, 0xdd, 0xee,
        0xff,
    ];
    let mut buf: Vec<u8> = Vec::with_capacity(48);
    buf.extend_from_slice(hex);
    buf.extend_from_slice(&bin);
    let raw = Bytes::from(buf);

    assert_eq!(record(Some(0..32)).trace_id_bytes(&raw), Some(bin));
    assert_eq!(record(Some(32..48)).trace_id_bytes(&raw), Some(bin));
}

#[test]
fn malformed_trace_id_is_none() {
    let raw = Bytes::from_static(b"zz112233445566778899aabbccddeeffXX");
    assert_eq!(record(Some(0..32)).trace_id_bytes(&raw), None);
}

#[test]
fn trace_ids_outside_the_buffer_are_none() {
    let raw = Bytes::from_static(b"short");
    assert_eq!(record(Some(0..16)).trace_id_bytes(&raw), None);
    assert_eq!(record(Some(0..5)).trace_id_bytes(&raw), None);
    assert_eq!(record(None).trace_id_bytes(&raw), None);
}

#[test]
fn hex_takes_either_case() {
    let upper = decode_hex_16(b"00112233445566778899AABBCCDDEEFF");
    assert!(upper.is_some());
    assert_eq!(upper, decode_hex_16(b"00112233445566778899aabbccddeeff"));
    assert_eq!(decode_hex_16(b"00"), None);
}

#[test]
fn clear_stage_removes_only_that_stage() {
    let mut d = Decisions::default();
    let redact = StageId("redact-regex");
    let wasm = StageId("redact-wasm");
    d.push_redaction(redact, 0, span(0..4, 1));
    d.push_redaction(wasm, 0, span(5..9, 2));
    d.set_sampling(vec![SampleVerdict::Drop]);

    d.clear_stage(wasm);
    assert_eq!(d.redactions_for(0).len(), 1);
    assert_eq!(d.sampling_verdict(0), SampleVerdict::Drop);

    d.clear_stage(StageId(STAGE_SAMPLE));
    assert_eq!(d.sampling_verdict(0), SampleVerdict::Keep);
}

#[test]
fn records_without_a_verdict_are_kept() {
    let mut d = Decisions::default();
    assert!(!d.any_dropped());
    d.set_sampling(vec![SampleVerdict::Keep, SampleVerdict::Drop]);
    assert!(d.any_dropped());
    assert_eq!(d.sampling_verdict(0), SampleVerdict::Keep);
    assert_eq!(d.sampling_verdict(1), SampleVerdict::Drop);
    assert_eq!(d.sampling_verdict(2), SampleVerdict::Keep);
    // New verdicts replace the old ones.
    d.set_sampling(vec![SampleVerdict::Keep]);
    assert!(!d.any_dropped());
}

#[test]
fn spans_belong_to_their_record() {
    let mut d = Decisions::default();
    let id = StageId("redact-regex");
    d.push_redaction(id, 1, span(0..4, 1));
    d.push_redaction(id, 0, span(5..9, 2));
    d.push_redaction(id, 1, span(2..3, 0));
    assert_eq!(d.redaction_total(), 3);
    let of_one = d.redactions_for(1);
    assert_eq!(of_one.len(), 2);
    assert_eq!(of_one[0].target, 0..4);
    assert_eq!(of_one[1].target, 2..3);
    assert_eq!(d.redactions_for(2).len(), 0);
}

#[test]
fn error_bypasses_with_reason() {
    let mut env = Envelope::new(Bytes::from_static(b"payload"));
    let outcome = guarded(&mut FailingStage, &mut env);
    match outcome {
        StageOutcome::Bypassed(BypassReason::Error(StageError::Rule { rule_id, .. })) => {
            assert_eq!(rule_id, 7);
        }
        other => panic!("expected rule bypass, got {other:?}"),
    }
    assert_eq!(env.decisions.redactions_for(0).len(), 0);
}

#[test]
fn a_panic_discards_only_what_the_stage_decided() {
    let payload = Bytes::from_static(b"original payload");
    let mut env = Envelope::new(payload.clone());
    assert!(matches!(
        guarded(&mut OkStage, &mut env),
        StageOutcome::Applied
    ));

    // A stage that got halfway before it panicked.
    env.decisions
        .push_redaction(StageId("panic-test"), 0, span(0..2, 9));
    let outcome = settle(&mut env, StageId("panic-test"), Attempt::Panicked);

    assert!(matches!(
        outcome,
        StageOutcome::Bypassed(BypassReason::Panic)
    ));
    assert_eq!(env.decisions.redactions_for(0).len(), 1);
    assert_eq!(env.decisions.redactions_for(0)[0].target, 0..1);
    assert_eq!(env.raw, payload);
}
