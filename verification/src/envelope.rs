//! The unit of work: one request buffer and offsets into it.
//!
//! `raw` is the only owned copy of a request body. Everything else is a range
//! of it. Nothing here rewrites `raw`: stages leave decisions, and the export
//! assembly reads them.

use crate::buffer;
use crate::clock;
use crate::guard::StageId;
use crate::lists::{AttrList, RecordList, VerdictList};
use crate::text;
use bytes::Bytes;
use std::ops::Range;
use std::time::Instant;
use vstd::prelude::*;
use vstd::slice::slice_subrange;

verus! {

/// Key and value of one attribute, as ranges of the request buffer.
#[derive(Debug)]
pub struct AttrView {
    pub key: Range<usize>,
    pub value: Range<usize>,
}

/// One parsed log record: offsets into the request buffer, never owned bytes.
#[derive(Debug)]
pub struct RecordView {
    /// The record's string body; empty where it has none.
    pub body: Range<usize>,
    /// The trace id: 16 binary bytes or 32 hex characters.
    pub trace_id: Option<Range<usize>>,
    /// The attributes whose value is a string.
    pub attrs: AttrList,
    /// The severity number, where the record states one.
    pub severity_number: Option<i32>,
    /// The resource's `k8s.namespace.name`.
    pub namespace: Option<Range<usize>>,
    /// The resource's `service.name`.
    pub service_name: Option<Range<usize>>,
}

/// A range as a pair of offsets.
pub open spec fn span(r: Range<usize>) -> (int, int) {
    (r.start as int, r.end as int)
}

/// An optional range as a pair of offsets.
pub open spec fn span_opt(r: Option<Range<usize>>) -> Option<(int, int)> {
    match r {
        Some(r) => Some(span(r)),
        None => None,
    }
}

/// What a record says, in plain offsets.
#[verifier::ext_equal]
pub struct RecordModel {
    pub body: (int, int),
    pub trace_id: Option<(int, int)>,
    pub attrs: Seq<((int, int), (int, int))>,
    pub severity_number: Option<i32>,
    pub namespace: Option<(int, int)>,
    pub service_name: Option<(int, int)>,
}

impl AttrView {
    /// Offsets of the key and of the value.
    pub open spec fn model(self) -> ((int, int), (int, int)) {
        (span(self.key), span(self.value))
    }
}

/// The offsets of a sequence of attributes.
pub open spec fn attr_models(attrs: Seq<AttrView>) -> Seq<((int, int), (int, int))> {
    attrs.map_values(|a: AttrView| a.model())
}

/// What a sequence of records says.
pub open spec fn record_models(records: Seq<RecordView>) -> Seq<RecordModel> {
    records.map_values(|r: RecordView| r.model())
}

/// The bytes of a buffer that a span covers, where it lies in the buffer.
pub open spec fn bytes_at(raw: Seq<u8>, at: (int, int)) -> Option<Seq<u8>> {
    if 0 <= at.0 <= at.1 <= raw.len() {
        Some(raw.subrange(at.0, at.1))
    } else {
        None
    }
}

/// [`bytes_at`] of a span that may be absent.
pub open spec fn bytes_at_opt(raw: Seq<u8>, at: Option<(int, int)>) -> Option<Seq<u8>> {
    match at {
        Some(at) => bytes_at(raw, at),
        None => None,
    }
}

/// The value of a hexadecimal digit in either case.
pub open spec fn hex_value(b: u8) -> Option<int> {
    if 48 <= b <= 57 {
        Some(b - 48)
    } else if 97 <= b <= 102 {
        Some(b - 97 + 10)
    } else if 65 <= b <= 70 {
        Some(b - 65 + 10)
    } else {
        None
    }
}

/// 32 hexadecimal digits as 16 bytes, high digit first.
pub open spec fn hex_decoded(hex: Seq<u8>) -> Option<Seq<u8>> {
    if hex.len() == 32 && forall|i: int| 0 <= i < 32 ==> hex_value(#[trigger] hex[i]) is Some {
        Some(
            Seq::new(
                16,
                |i: int| (hex_value(hex[2 * i])->0 * 16 + hex_value(hex[2 * i + 1])->0) as u8,
            ),
        )
    } else {
        None
    }
}

impl RecordModel {
    /// The trace id: sixteen bytes as they stand, or decoded from hex.
    pub open spec fn trace_bytes(self, raw: Seq<u8>) -> Option<Seq<u8>> {
        match bytes_at_opt(raw, self.trace_id) {
            Some(id) => if id.len() == 16 {
                Some(id)
            } else {
                hex_decoded(id)
            },
            None => None,
        }
    }
}

/// A span covers the bytes from its start up to its end, and only one that
/// lies in the buffer covers any.
pub proof fn law_spans_cover_their_bytes(raw: Seq<u8>, lo: int, hi: int)
    ensures
        0 <= lo <= hi <= raw.len() ==> {
            &&& bytes_at(raw, (lo, hi)) is Some
            &&& bytes_at(raw, (lo, hi))->0.len() == hi - lo
            &&& forall|i: int|
                0 <= i < hi - lo ==> #[trigger] bytes_at(raw, (lo, hi))->0[i] == raw[lo + i]
        },
        !(0 <= lo <= hi <= raw.len()) ==> bytes_at(raw, (lo, hi)) is None,
        bytes_at_opt(raw, Some((lo, hi))) == bytes_at(raw, (lo, hi)),
        bytes_at_opt(raw, None) is None,
{
}

/// A trace id of sixteen bytes is those bytes, whatever else the record holds.
pub proof fn law_binary_trace_ids_stand_as_they_are(rec: RecordModel, raw: Seq<u8>, lo: int)
    requires
        0 <= lo,
        lo + 16 <= raw.len(),
        rec.trace_id == Some((lo, lo + 16)),
    ensures
        rec.trace_bytes(raw) == Some(raw.subrange(lo, lo + 16)),
{
}

/// A trace id written as 32 hexadecimal digits, high digit first and in either
/// case, is the sixteen bytes that were written.
pub proof fn law_hex_trace_ids_read_back(rec: RecordModel, raw: Seq<u8>, lo: int, id: Seq<u8>)
    requires
        0 <= lo,
        lo + 32 <= raw.len(),
        rec.trace_id == Some((lo, lo + 32)),
        id.len() == 16,
        forall|i: int|
            #![trigger id[i]]
            0 <= i < 16 ==> {
                let high = id[i] / 16;
                let low = id[i] % 16;
                let x = raw[lo + 2 * i];
                let y = raw[lo + 2 * i + 1];
                &&& x == high + 48 && high < 10 || x == high + 87 && high >= 10 || x == high + 55
                    && high >= 10
                &&& y == low + 48 && low < 10 || y == low + 87 && low >= 10 || y == low + 55 && low
                    >= 10
            },
    ensures
        rec.trace_bytes(raw) == Some(id),
{
    let hex = raw.subrange(lo, lo + 32);
    assert forall|j: int| 0 <= j < 32 implies hex_value(#[trigger] hex[j]) is Some by {
        let i = j / 2;
        assert(id[i] / 16 < 16);
        assert(hex[j] == raw[lo + j]);
        if j % 2 == 0 {
            assert(j == 2 * i);
        } else {
            assert(j == 2 * i + 1);
        }
    }
    assert forall|i: int| 0 <= i < 16 implies #[trigger] hex_decoded(hex)->0[i] == id[i] by {
        assert(hex[2 * i] == raw[lo + 2 * i]);
        assert(hex[2 * i + 1] == raw[lo + 2 * i + 1]);
        assert(hex_value(hex[2 * i]) == Some(id[i] as int / 16));
        assert(hex_value(hex[2 * i + 1]) == Some(id[i] as int % 16));
    }
    assert(hex_decoded(hex)->0 =~= id);
}

/// Nothing else is a trace id: a span of another length, or 32 bytes one of
/// which is no hexadecimal digit.
pub proof fn law_other_trace_ids_are_none(rec: RecordModel, raw: Seq<u8>, lo: int, hi: int, i: int)
    requires
        0 <= lo <= hi <= raw.len(),
        rec.trace_id == Some((lo, hi)),
        hi - lo != 16,
        hi - lo == 32 ==> lo <= i < hi && !(48 <= raw[i] <= 57 || 65 <= raw[i] <= 70 || 97 <= raw[i]
            <= 102),
    ensures
        rec.trace_bytes(raw) is None,
{
    let id = raw.subrange(lo, hi);
    if id.len() == 32 {
        assert(hex_value(id[i - lo]) is None);
    }
}

/// The bytes of `raw` that `r` covers, where it lies in the buffer.
pub fn view_of<'a>(raw: &'a Bytes, r: &Range<usize>) -> (v: Option<&'a [u8]>)
    ensures
        match v {
            Some(s) => bytes_at(buffer::content(*raw), span(*r)) == Some(s@),
            None => bytes_at(buffer::content(*raw), span(*r)) is None,
        },
{
    let s = buffer::as_slice(raw);
    if r.start <= r.end && r.end <= s.len() {
        Some(slice_subrange(s, r.start, r.end))
    } else {
        None
    }
}

fn nibble(b: u8) -> (r: Option<u8>)
    ensures
        match r {
            Some(v) => hex_value(b) == Some(v as int) && v < 16,
            None => hex_value(b) is None,
        },
{
    match b {
        48..=57 => Some(b - 48),
        97..=102 => Some(b - 97 + 10),
        65..=70 => Some(b - 65 + 10),
        _ => None,
    }
}

/// Decode 32 hex characters into 16 bytes on the stack.
pub fn decode_hex_16(hex: &[u8]) -> (r: Option<[u8; 16]>)
    ensures
        match r {
            Some(id) => hex_decoded(hex@) == Some(id@),
            None => hex_decoded(hex@) is None,
        },
{
    if hex.len() != 32 {
        return None;
    }
    let mut out: [u8; 16] = [0u8;16];
    let mut i: usize = 0;
    while i < 16
        invariant
            i <= 16,
            hex@.len() == 32,
            forall|j: int| 0 <= j < 2 * i ==> hex_value(#[trigger] hex@[j]) is Some,
            forall|j: int|
                0 <= j < i ==> #[trigger] out@[j] == (hex_value(hex@[2 * j])->0 * 16 + hex_value(
                    hex@[2 * j + 1],
                )->0) as u8,
        decreases 16 - i,
    {
        match (nibble(hex[2 * i]), nibble(hex[2 * i + 1])) {
            (Some(hi), Some(lo)) => {
                out[i] = hi * 16 + lo;
            },
            _ => {
                return None;
            },
        }
        i = i + 1;
    }
    assert(out@ =~= hex_decoded(hex@)->0);
    Some(out)
}

impl RecordView {
    /// What this record says, in plain offsets.
    pub open spec fn model(self) -> RecordModel {
        RecordModel {
            body: span(self.body),
            trace_id: span_opt(self.trace_id),
            attrs: attr_models(self.attrs@),
            severity_number: self.severity_number,
            namespace: span_opt(self.namespace),
            service_name: span_opt(self.service_name),
        }
    }

    /// The trace id as sixteen bytes, decoded where it came as hex; `None`
    /// where it is absent or malformed.
    pub fn trace_id_bytes(&self, raw: &Bytes) -> (r: Option<[u8; 16]>)
        ensures
            match r {
                Some(id) => self.model().trace_bytes(buffer::content(*raw)) == Some(id@),
                None => self.model().trace_bytes(buffer::content(*raw)) is None,
            },
    {
        let range = match &self.trace_id {
            Some(range) => range,
            None => {
                return None;
            },
        };
        let src = match view_of(raw, range) {
            Some(src) => src,
            None => {
                return None;
            },
        };
        if src.len() == 16 {
            let mut id: [u8; 16] = [0u8;16];
            let mut i: usize = 0;
            while i < 16
                invariant
                    i <= 16,
                    src@.len() == 16,
                    forall|j: int| 0 <= j < i ==> #[trigger] id@[j] == src@[j],
                decreases 16 - i,
            {
                id[i] = src[i];
                i = i + 1;
            }
            assert(id@ =~= src@);
            Some(id)
        } else {
            decode_hex_16(src)
        }
    }

    /// The namespace's bytes, where the record has one.
    pub fn namespace_bytes<'a>(&self, raw: &'a Bytes) -> (r: Option<&'a [u8]>)
        ensures
            match r {
                Some(s) => bytes_at_opt(buffer::content(*raw), self.model().namespace) == Some(s@),
                None => bytes_at_opt(buffer::content(*raw), self.model().namespace) is None,
            },
    {
        match &self.namespace {
            Some(r) => view_of(raw, r),
            None => None,
        }
    }

    /// The service name's bytes, where the record has one.
    pub fn service_name_bytes<'a>(&self, raw: &'a Bytes) -> (r: Option<&'a [u8]>)
        ensures
            match r {
                Some(s) => bytes_at_opt(buffer::content(*raw), self.model().service_name) == Some(
                    s@,
                ),
                None => bytes_at_opt(buffer::content(*raw), self.model().service_name) is None,
            },
    {
        match &self.service_name {
            Some(r) => view_of(raw, r),
            None => None,
        }
    }
}

/// Index into the policy's mask table. A mask says what kind of content stood
/// in its place, never the content.
#[derive(Debug, Clone, Copy, PartialEq, Eq, Structural)]
pub struct MaskId(pub u32);

/// A replacement span: mask the `target` bytes of the request at export time.
#[derive(Debug)]
pub struct Redaction {
    pub target: Range<usize>,
    pub mask: MaskId,
}

impl Clone for Redaction {
    fn clone(&self) -> (r: Self)
        ensures
            r == *self,
    {
        Redaction { target: self.target.start..self.target.end, mask: self.mask }
    }
}

/// Whether a record is exported.
#[derive(Debug, Clone, Copy, PartialEq, Eq, Structural)]
pub enum SampleVerdict {
    Keep,
    Drop,
}

/// One replacement span, with the stage that asked for it and its record.
#[derive(Debug)]
pub struct StageRedaction {
    pub stage: StageId,
    pub record: usize,
    pub redaction: Redaction,
}

/// Well-known stage id of the sampling stage.
pub const STAGE_SAMPLE: &'static str = "sample";

/// Additive, per-stage decisions. To bypass a stage is to clear what it
/// contributed.
#[derive(Debug)]
pub struct Decisions {
    sampling: VerdictList,
    redactions: Vec<StageRedaction>,
}

/// Picks the spans that stage `id` asked for.
pub open spec fn asked_by(id: Seq<char>) -> spec_fn(StageRedaction) -> bool {
    |e: StageRedaction| e.stage@ == id
}

/// Picks the spans that other stages than `id` asked for.
pub open spec fn not_asked_by(id: Seq<char>) -> spec_fn(StageRedaction) -> bool {
    |e: StageRedaction| e.stage@ != id
}

/// The spans asked for by other stages than `id`.
pub open spec fn without_stage(entries: Seq<StageRedaction>, id: Seq<char>) -> Seq<StageRedaction> {
    entries.filter(not_asked_by(id))
}

/// The spans of one record, in the order they were asked for.
pub open spec fn spans_of_record(entries: Seq<StageRedaction>, record: int) -> Seq<Redaction> {
    entries.filter(|e: StageRedaction| e.record == record).map_values(
        |e: StageRedaction| e.redaction,
    )
}

/// Whether every span from the one at `from` on is a range of a buffer of
/// `len` bytes.
pub open spec fn spans_lie(entries: Seq<StageRedaction>, from: int, len: int) -> bool {
    forall|i: int|
        from <= i < entries.len() ==> (#[trigger] entries[i]).redaction.target.start
            <= entries[i].redaction.target.end <= len
}

/// The verdict on record `idx`; a record without one is kept.
pub open spec fn verdict_at(verdicts: Seq<SampleVerdict>, idx: int) -> SampleVerdict {
    if 0 <= idx < verdicts.len() {
        verdicts[idx]
    } else {
        SampleVerdict::Keep
    }
}

impl Decisions {
    /// The sampling verdicts, record by record; empty keeps everything.
    pub closed spec fn verdicts(self) -> Seq<SampleVerdict> {
        self.sampling@
    }

    /// All replacement spans, in the order they were asked for.
    pub closed spec fn entries(self) -> Seq<StageRedaction> {
        self.redactions@
    }

    /// Replaces all sampling verdicts.
    pub fn set_sampling(&mut self, verdicts: Vec<SampleVerdict>)
        ensures
            final(self).verdicts() == verdicts@,
            final(self).entries() == old(self).entries(),
    {
        self.sampling.clear();
        let mut i: usize = 0;
        while i < verdicts.len()
            invariant
                i <= verdicts@.len(),
                self.sampling@ == verdicts@.take(i as int),
                self.redactions == old(self).redactions,
            decreases verdicts@.len() - i,
        {
            self.sampling.append(verdicts[i]);
            assert(verdicts@.take(i + 1) =~= verdicts@.take(i as int).push(verdicts@[i as int]));
            i = i + 1;
        }
        assert(verdicts@.take(i as int) =~= verdicts@);
    }

    /// The verdict on record `idx`; a record without one is kept.
    pub fn sampling_verdict(&self, idx: usize) -> (r: SampleVerdict)
        ensures
            r == verdict_at(self.verdicts(), idx as int),
    {
        let verdicts = self.sampling.items();
        if idx < verdicts.len() {
            verdicts[idx]
        } else {
            SampleVerdict::Keep
        }
    }

    /// Adds one replacement span on behalf of a stage.
    pub fn push_redaction(&mut self, stage: StageId, record: usize, redaction: Redaction)
        ensures
            final(self).verdicts() == old(self).verdicts(),
            final(self).entries() == old(self).entries().push(
                StageRedaction { stage, record, redaction },
            ),
    {
        self.redactions.push(StageRedaction { stage, record, redaction });
    }

    /// The spans of one record, in the order they were asked for.
    pub fn redactions_for(&self, record: usize) -> (r: Vec<Redaction>)
        ensures
            r@ == spans_of_record(self.entries(), record as int),
    {
        let mut out: Vec<Redaction> = Vec::new();
        let ghost entries = self.entries();
        let ghost mine = |e: StageRedaction| e.record == record;
        let ghost bare = |e: StageRedaction| e.redaction;
        proof {
            reveal(Seq::filter);
            assert(entries.take(0).filter(mine).map_values(bare) =~= Seq::<Redaction>::empty());
        }
        let mut i: usize = 0;
        while i < self.redactions.len()
            invariant
                i <= entries.len(),
                entries == self.redactions@,
                mine == (|e: StageRedaction| e.record == record),
                bare == (|e: StageRedaction| e.redaction),
                out@ == entries.take(i as int).filter(mine).map_values(bare),
            decreases entries.len() - i,
        {
            proof {
                reveal(Seq::filter);
                let head = entries.take(i as int);
                assert(entries.take(i + 1) =~= head.push(entries[i as int]));
                assert(head.push(entries[i as int]).drop_last() =~= head);
                if mine(entries[i as int]) {
                    assert(head.filter(mine).push(entries[i as int]).map_values(bare)
                        =~= head.filter(mine).map_values(bare).push(bare(entries[i as int])));
                }
            }
            if self.redactions[i].record == record {
                out.push(self.redactions[i].redaction.clone());
            }
            i = i + 1;
        }
        assert(entries.take(i as int) =~= entries);
        out
    }

    /// Whether any record is dropped.
    pub fn any_dropped(&self) -> (r: bool)
        ensures
            r == self.verdicts().contains(SampleVerdict::Drop),
    {
        let verdicts = self.sampling.items();
        let mut i: usize = 0;
        while i < verdicts.len()
            invariant
                i <= verdicts@.len(),
                verdicts@ == self.verdicts(),
                forall|j: int| 0 <= j < i ==> verdicts@[j] != SampleVerdict::Drop,
            decreases verdicts@.len() - i,
        {
            if verdicts[i] == SampleVerdict::Drop {
                assert(self.verdicts()[i as int] == SampleVerdict::Drop);
                return true;
            }
            i = i + 1;
        }
        false
    }

    /// Number of replacement spans across all records and stages.
    pub fn redaction_total(&self) -> (r: usize)
        ensures
            r == self.entries().len(),
    {
        self.redactions.len()
    }

    /// Drops everything that stage `id` contributed, and nothing else.
    pub fn clear_stage(&mut self, id: StageId)
        ensures
            final(self).entries() == without_stage(old(self).entries(), id@),
            final(self).verdicts() == (if id@ == STAGE_SAMPLE@ {
                Seq::<SampleVerdict>::empty()
            } else {
                old(self).verdicts()
            }),
    {
        let mut kept: Vec<StageRedaction> = Vec::new();
        let ghost entries = self.entries();
        let ghost other = not_asked_by(id@);
        proof {
            reveal(Seq::filter);
        }
        let mut i: usize = 0;
        while i < self.redactions.len()
            invariant
                i <= entries.len(),
                entries == self.redactions@,
                *self == *old(self),
                other == not_asked_by(id@),
                kept@ == entries.take(i as int).filter(other),
            decreases entries.len() - i,
        {
            proof {
                reveal(Seq::filter);
                let head = entries.take(i as int);
                assert(entries.take(i + 1) =~= head.push(entries[i as int]));
                assert(head.push(entries[i as int]).drop_last() =~= head);
            }
            let e = &self.redactions[i];
            if !text::str_eq(e.stage.0, id.0) {
                kept.push(
                    StageRedaction {
                        stage: e.stage,
                        record: e.record,
                        redaction: e.redaction.clone(),
                    },
                );
            }
            i = i + 1;
        }
        assert(entries.take(i as int) =~= entries);
        self.redactions = kept;
        if text::str_eq(id.0, STAGE_SAMPLE) {
            self.sampling.clear();
        }
    }
}

impl Default for Decisions {
    /// No decision at all.
    fn default() -> (d: Self)
        ensures
            d.verdicts() == Seq::<SampleVerdict>::empty(),
            d.entries() == Seq::<StageRedaction>::empty(),
    {
        Decisions { sampling: VerdictList::inline(), redactions: Vec::new() }
    }
}

/// The unit of work flowing through the pipeline.
#[derive(Debug)]
pub struct Envelope {
    /// The original payload, never changed after ingest.
    pub raw: Bytes,
    /// The parsed records: offsets into `raw`.
    pub records: RecordList,
    /// Sampling verdicts and replacement spans, additive per stage.
    pub decisions: Decisions,
    pub received_at: Instant,
}

impl Envelope {
    /// An envelope around a payload, with nothing parsed and nothing decided.
    pub fn new(raw: Bytes) -> (env: Self)
        ensures
            env.raw == raw,
            env.records@ == Seq::<RecordView>::empty(),
            env.decisions.verdicts() == Seq::<SampleVerdict>::empty(),
            env.decisions.entries() == Seq::<StageRedaction>::empty(),
    {
        Self {
            raw,
            records: RecordList::inline(),
            decisions: Decisions::default(),
            received_at: clock::now(),
        }
    }
}

/// A view stands for its own offsets, one for one, and for those of each of
/// its attributes in their order.
pub proof fn law_views_give_their_offsets(v: RecordView, i: int)
    ensures
        v.model().body == (v.body.start as int, v.body.end as int),
        v.model().severity_number == v.severity_number,
        v.trace_id matches Some(r) ==> v.model().trace_id == Some((r.start as int, r.end as int)),
        v.trace_id is None ==> v.model().trace_id is None,
        v.namespace matches Some(r) ==> v.model().namespace == Some((r.start as int, r.end as int)),
        v.namespace is None ==> v.model().namespace is None,
        v.service_name matches Some(r) ==> v.model().service_name == Some(
            (r.start as int, r.end as int),
        ),
        v.service_name is None ==> v.model().service_name is None,
        v.model().attrs.len() == v.attrs@.len(),
        0 <= i < v.attrs@.len() ==> v.model().attrs[i] == (
            (v.attrs@[i].key.start as int, v.attrs@[i].key.end as int),
            (v.attrs@[i].value.start as int, v.attrs@[i].value.end as int),
        ),
{
}

/// Several views stand for their records, one for one and in order.
pub proof fn law_views_stand_in_order(vs: Seq<RecordView>, i: int)
    requires
        0 <= i < vs.len(),
    ensures
        record_models(vs).len() == vs.len(),
        record_models(vs)[i] == vs[i].model(),
{
}

} // verus!
