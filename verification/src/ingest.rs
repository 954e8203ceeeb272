//! The parsing stage: from raw bytes to record views.
//!
//! A malformed payload is bypassed with an envelope that holds no record:
//! later stages have nothing to do, and the exporter forwards the payload.

use crate::buffer;
use crate::envelope;
use crate::envelope::Envelope;
use crate::guard::{Stage, StageError, StageId};
use crate::lists::RecordList;
use crate::otlp;
use vstd::prelude::*;

verus! {

/// Stage id of the parser.
pub const STAGE_PARSE: &'static str = "parse";

/// What the parser says of a payload that is none.
pub const MALFORMED: &'static str = "malformed OTLP logs payload";

/// The parsing stage.
#[derive(Debug)]
pub struct ParseStage;

impl Stage for ParseStage {
    open spec fn label(&self) -> Seq<char> {
        STAGE_PARSE@
    }

    /// It parses the payload and touches no decision.
    open spec fn runs(
        &self,
        env: Envelope,
        after: &Self,
        left: Envelope,
        r: Result<(), StageError>,
    ) -> bool {
        &&& left.raw == env.raw
        &&& left.decisions == env.decisions
        &&& left.received_at == env.received_at
        &&& match otlp::parsed(buffer::content(env.raw)) {
            Ok(records) => r is Ok && envelope::record_models(left.records@) == records,
            Err(_) => r == Err::<(), StageError>(StageError::Internal(MALFORMED)) && left.records
                == env.records,
        }
    }

    fn id(&self) -> (r: StageId) {
        StageId(STAGE_PARSE)
    }

    /// Fills in the records of a well-formed payload.
    fn apply(&mut self, env: &mut Envelope) -> (r: Result<(), StageError>) {
        let mut records = RecordList::new();
        match otlp::parse_export_logs_request(buffer::as_slice(&env.raw), &mut records) {
            Ok(()) => {
                proof {
                    let rs = otlp::parsed(buffer::content(env.raw))->Ok_0;
                    let none = envelope::record_models(Seq::<envelope::RecordView>::empty());
                    assert(none + rs =~= rs);
                }
                env.records = records;
                Ok(())
            },
            // Errors never carry payload bytes.
            Err(_) => Err(StageError::Internal(MALFORMED)),
        }
    }
}

} // verus!
