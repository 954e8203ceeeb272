//! Vectored export assembly.
//!
//! Turns an envelope and its decisions into a valid OTLP request: sampled-out
//! records are omitted, replacement spans become mask bytes, everything else
//! is preserved verbatim. Masks change field lengths, so every enclosing
//! length prefix is recomputed from the inside out. The output is a list of
//! chunks: slices of the request for payload content, small owned buffers for
//! rewritten headers and masks.

use crate::buffer;
use crate::envelope;
use crate::envelope::{Envelope, MaskId, Redaction, SampleVerdict, StageRedaction};
use crate::lists::SpanList;
use crate::wire;
use crate::wire::{ParseError, WireCursor};
use bytes::{Bytes, BytesMut};
use std::ops::Range;
use vstd::prelude::*;

verus! {

/// Why a request cannot be assembled. The caller then forwards it unchanged.
#[derive(Debug, Clone, Copy, PartialEq, Eq, Structural)]
pub enum AssembleError {
    /// The request is not well formed.
    Wire(ParseError),
    /// The request does not hold as many records as the envelope.
    RecordCountMismatch { parsed: usize, walked: usize },
    /// A span asks for a mask that the table does not hold.
    UnknownMask(u32),
    /// The result would not fit in memory.
    TooLarge,
}

// ---------------------------------------------------------------------------
// What the assembled request is.

/// A number as a varint: seven bits a byte, least significant first.
pub open spec fn varint_bytes(v: nat) -> Seq<u8>
    decreases v,
{
    if v < 128 {
        seq![v as u8]
    } else {
        seq![(v % 128 + 128) as u8] + varint_bytes(v / 128)
    }
}

/// Tag and length prefix of a length-delimited field.
pub open spec fn header(field: nat, size: nat) -> Seq<u8> {
    varint_bytes(field * 8 + 2) + varint_bytes(size)
}

/// Everything that decides what becomes of a request.
pub struct Plan {
    pub verdicts: Seq<SampleVerdict>,
    pub entries: Seq<StageRedaction>,
    pub masks: Seq<Seq<u8>>,
}

/// The spans that lie in a window.
pub open spec fn in_window(spans: Seq<Redaction>, lo: int, hi: int) -> Seq<Redaction> {
    spans.filter(|r: Redaction| r.target.start >= lo && r.target.end <= hi)
}

/// Whether one span comes before another: by start, then by end.
pub open spec fn comes_before(a: Redaction, b: Redaction) -> bool {
    a.target.start < b.target.start || (a.target.start == b.target.start && a.target.end
        < b.target.end)
}

/// `x` placed behind every span that it does not come before.
pub open spec fn inserted(spans: Seq<Redaction>, x: Redaction) -> Seq<Redaction>
    decreases spans.len(),
{
    if spans.len() > 0 && comes_before(x, spans.last()) {
        inserted(spans.drop_last(), x).push(spans.last())
    } else {
        spans.push(x)
    }
}

/// The spans by start, then by end, equal ones in their given order.
pub open spec fn ordered(spans: Seq<Redaction>) -> Seq<Redaction>
    decreases spans.len(),
{
    if spans.len() == 0 {
        spans
    } else {
        inserted(ordered(spans.drop_last()), spans.last())
    }
}

/// The spans that remain where a span that starts before the end of the one
/// taken before it is left out.
pub open spec fn without_overlaps(spans: Seq<Redaction>, cursor: int) -> Seq<Redaction>
    decreases spans.len(),
{
    if spans.len() == 0 {
        spans
    } else if spans[0].target.start < cursor {
        without_overlaps(spans.drop_first(), cursor)
    } else {
        seq![spans[0]] + without_overlaps(spans.drop_first(), spans[0].target.end as int)
    }
}

/// The spans that are applied to the string `b[lo..hi]` of record `idx`.
pub open spec fn applied_spans(plan: Plan, idx: int, lo: int, hi: int) -> Seq<Redaction> {
    without_overlaps(
        ordered(in_window(envelope::spans_of_record(plan.entries, idx), lo, hi)),
        lo,
    )
}

/// `b[from..to]`, empty where the range is reversed.
pub open spec fn between(b: Seq<u8>, from: int, to: int) -> Seq<u8> {
    if from < to {
        b.subrange(from, to)
    } else {
        Seq::empty()
    }
}

/// The string from `cursor` to `hi` with each span replaced by its mask.
pub open spec fn spliced(
    b: Seq<u8>,
    masks: Seq<Seq<u8>>,
    spans: Seq<Redaction>,
    cursor: int,
    hi: int,
) -> Result<Seq<u8>, AssembleError>
    decreases spans.len(),
{
    if spans.len() == 0 {
        Ok(between(b, cursor, hi))
    } else if spans[0].mask.0 >= masks.len() {
        Err(AssembleError::UnknownMask(spans[0].mask.0))
    } else {
        match spliced(b, masks, spans.drop_first(), spans[0].target.end as int, hi) {
            Ok(rest) => Ok(
                between(b, cursor, spans[0].target.start as int) + masks[spans[0].mask.0 as int]
                    + rest,
            ),
            Err(e) => Err(e),
        }
    }
}

/// What became of a stretch of the request.
#[verifier::ext_equal]
pub struct Rewrite {
    pub changed: bool,
    pub out: Seq<u8>,
}

/// The messages of a logs request.
#[derive(Debug, Clone, Copy, PartialEq, Eq, Structural)]
pub enum Level {
    AnyValue,
    KeyValue,
    Record,
    Scope,
    Resource,
    Request,
}

/// How deep a message can nest below.
pub open spec fn rank(level: Level) -> nat {
    match level {
        Level::AnyValue => 0,
        Level::KeyValue => 1,
        Level::Record => 2,
        Level::Scope => 3,
        Level::Resource => 4,
        Level::Request => 5,
    }
}

/// The message that field `num` of a message holds, where it may change.
pub open spec fn child_of(level: Level, num: u32) -> Option<Level> {
    match level {
        Level::AnyValue => None,
        Level::KeyValue => if num == 2 {
            Some(Level::AnyValue)
        } else {
            None
        },
        Level::Record => if num == 5 {
            Some(Level::AnyValue)
        } else if num == 6 {
            Some(Level::KeyValue)
        } else {
            None
        },
        Level::Scope => if num == 2 {
            Some(Level::Record)
        } else {
            None
        },
        Level::Resource => if num == 2 {
            Some(Level::Scope)
        } else {
            None
        },
        Level::Request => if num == 1 {
            Some(Level::Resource)
        } else {
            None
        },
    }
}

/// A field that stays as it is.
pub open spec fn kept(b: Seq<u8>, pos: int, next: int) -> Rewrite {
    Rewrite { changed: false, out: b.subrange(pos, next) }
}

/// A field with a new payload, under a new length prefix.
pub open spec fn replaced(num: u32, payload: Seq<u8>) -> Result<Rewrite, AssembleError> {
    if payload.len() > usize::MAX {
        Err(AssembleError::TooLarge)
    } else {
        Ok(Rewrite { changed: true, out: header(num as nat, payload.len()) + payload })
    }
}

/// A string field: spliced where any span applies to it.
pub open spec fn string_rewrite(
    plan: Plan,
    b: Seq<u8>,
    idx: int,
    pos: int,
    f: wire::Field,
) -> Result<Rewrite, AssembleError> {
    let spans = applied_spans(plan, idx, f.lo, f.next);
    if spans.len() == 0 {
        Ok(kept(b, pos, f.next))
    } else {
        match spliced(b, plan.masks, spans, f.lo, f.next) {
            Err(e) => Err(e),
            Ok(s) => replaced(f.num, s),
        }
    }
}

/// The rewrite of a stretch and then of what follows it.
pub open spec fn after(
    first: Rewrite,
    rest: Result<(Rewrite, int), AssembleError>,
) -> Result<(Rewrite, int), AssembleError> {
    match rest {
        Ok((r, n)) => Ok(
            (Rewrite { changed: first.changed || r.changed, out: first.out + r.out }, n),
        ),
        Err(e) => Err(e),
    }
}

/// The field `f` at `pos` of a message, given what became of its payload.
pub open spec fn nested_rewrite(
    b: Seq<u8>,
    pos: int,
    f: wire::Field,
    inner: Rewrite,
) -> Result<Rewrite, AssembleError> {
    if inner.changed {
        replaced(f.num, inner.out)
    } else {
        Ok(kept(b, pos, f.next))
    }
}

/// What becomes of the fields of a message from `pos` on, where `idx` records
/// stand before them, and how many records stand before what follows.
pub open spec fn rewritten(
    plan: Plan,
    b: Seq<u8>,
    level: Level,
    pos: int,
    end: int,
    idx: int,
) -> Result<(Rewrite, int), AssembleError>
    decreases rank(level), end - pos,
{
    if pos >= end {
        Ok((Rewrite { changed: false, out: Seq::empty() }, idx))
    } else {
        match wire::field_at(b, pos, end) {
            Err(e) => Err(AssembleError::Wire(e)),
            Ok(f) => {
                proof {
                    wire::lemma_field_bounds(b, pos, end);
                }
                if f.wire != 2 {
                    after(kept(b, pos, f.next), rewritten(plan, b, level, f.next, end, idx))
                } else if level == Level::AnyValue && f.num == 1 {
                    match string_rewrite(plan, b, idx, pos, f) {
                        Err(e) => Err(e),
                        Ok(p) => after(p, rewritten(plan, b, level, f.next, end, idx)),
                    }
                } else {
                    match child_of(level, f.num) {
                        None => after(
                            kept(b, pos, f.next),
                            rewritten(plan, b, level, f.next, end, idx),
                        ),
                        Some(child) => if child == Level::Record && envelope::verdict_at(
                            plan.verdicts,
                            idx,
                        ) == SampleVerdict::Drop {
                            after(
                                Rewrite { changed: true, out: Seq::empty() },
                                rewritten(plan, b, level, f.next, end, idx + 1),
                            )
                        } else {
                            match rewritten(plan, b, child, f.lo, f.next, idx) {
                                Err(e) => Err(e),
                                Ok((inner, n)) => match nested_rewrite(b, pos, f, inner) {
                                    Err(e) => Err(e),
                                    Ok(p) => after(
                                        p,
                                        rewritten(
                                            plan,
                                            b,
                                            level,
                                            f.next,
                                            end,
                                            if child == Level::Record {
                                                idx + 1
                                            } else {
                                                n
                                            },
                                        ),
                                    ),
                                },
                            }
                        },
                    }
                }
            },
        }
    }
}

/// Whether a plan drops nothing and masks nothing.
pub open spec fn untouched(plan: Plan) -> bool {
    !plan.verdicts.contains(SampleVerdict::Drop) && plan.entries.len() == 0
}

/// The assembled request, for an envelope that holds `records` records.
pub open spec fn assembled(plan: Plan, b: Seq<u8>, records: nat) -> Result<
    Seq<u8>,
    AssembleError,
> {
    if untouched(plan) {
        Ok(b)
    } else {
        match rewritten(plan, b, Level::Request, 0, b.len() as int, 0) {
            Err(e) => Err(e),
            Ok((r, walked)) => if walked != records {
                Err(
                    AssembleError::RecordCountMismatch {
                        parsed: records as usize,
                        walked: walked as usize,
                    },
                )
            } else if r.out.len() > usize::MAX {
                Err(AssembleError::TooLarge)
            } else {
                Ok(r.out)
            },
        }
    }
}

// ---------------------------------------------------------------------------
// Segment tree: sizes are computed while it is built, from the inside out;
// emission then writes headers with the new lengths and splices in the masks.

/// A piece of a spliced string.
#[derive(Debug)]
pub enum Part {
    Raw(Range<usize>),
    Mask(MaskId),
}

/// A piece of the assembled request.
#[derive(Debug)]
pub enum Seg {
    /// Bytes of the request as they stand, with their own field headers.
    Verbatim(Range<usize>),
    /// A message field whose payload changed.
    Nested { field: u32, size: usize, segs: Vec<Seg> },
    /// A string field with masks spliced in.
    Scalar { field: u32, size: usize, parts: Vec<Part> },
}

/// The bytes of one part.
pub open spec fn part_bytes(b: Seq<u8>, masks: Seq<Seq<u8>>, part: Part) -> Seq<u8> {
    match part {
        Part::Raw(r) => b.subrange(r.start as int, r.end as int),
        Part::Mask(m) => masks[m.0 as int],
    }
}

/// The bytes of several parts.
pub open spec fn parts_bytes(b: Seq<u8>, masks: Seq<Seq<u8>>, parts: Seq<Part>) -> Seq<u8>
    decreases parts.len(),
{
    if parts.len() == 0 {
        Seq::empty()
    } else {
        parts_bytes(b, masks, parts.drop_last()) + part_bytes(b, masks, parts.last())
    }
}

/// Whether a part lies in the request, or in the mask table.
pub open spec fn part_ok(b: Seq<u8>, masks: Seq<Seq<u8>>, part: Part) -> bool {
    match part {
        Part::Raw(r) => r.start <= r.end <= b.len(),
        Part::Mask(m) => m.0 < masks.len(),
    }
}

/// The bytes of one segment.
pub open spec fn seg_bytes(b: Seq<u8>, masks: Seq<Seq<u8>>, seg: Seg) -> Seq<u8>
    decreases seg,
{
    match seg {
        Seg::Verbatim(r) => b.subrange(r.start as int, r.end as int),
        Seg::Nested { field, size, segs } => header(field as nat, size as nat) + segs_bytes(
            b,
            masks,
            segs@,
        ),
        Seg::Scalar { field, size, parts } => header(field as nat, size as nat) + parts_bytes(
            b,
            masks,
            parts@,
        ),
    }
}

/// The bytes of several segments.
pub open spec fn segs_bytes(b: Seq<u8>, masks: Seq<Seq<u8>>, segs: Seq<Seg>) -> Seq<u8>
    decreases segs,
{
    if segs.len() == 0 {
        Seq::empty()
    } else {
        segs_bytes(b, masks, segs.drop_last()) + seg_bytes(b, masks, segs.last())
    }
}

/// Whether a segment's ranges lie in the request and its sizes are right.
pub open spec fn seg_ok(b: Seq<u8>, masks: Seq<Seq<u8>>, seg: Seg) -> bool
    decreases seg,
{
    match seg {
        Seg::Verbatim(r) => r.start <= r.end <= b.len(),
        Seg::Nested { field, size, segs } => size == segs_bytes(b, masks, segs@).len() && segs_ok(
            b,
            masks,
            segs@,
        ),
        Seg::Scalar { field, size, parts } => size == parts_bytes(b, masks, parts@).len() && (
        forall|i: int| 0 <= i < parts@.len() ==> part_ok(b, masks, #[trigger] parts@[i])),
    }
}

/// [`seg_ok`] of every segment.
pub open spec fn segs_ok(b: Seq<u8>, masks: Seq<Seq<u8>>, segs: Seq<Seg>) -> bool
    decreases segs,
{
    segs.len() == 0 || (segs_ok(b, masks, segs.drop_last()) && seg_ok(b, masks, segs.last()))
}

// ---------------------------------------------------------------------------
// Varints and headers.

/// A number below 2^(7k) takes at most `k` bytes.
proof fn lemma_varint_bytes_len(v: nat, k: nat)
    requires
        k >= 1,
        v < vstd::arithmetic::power2::pow2(7 * k),
    ensures
        1 <= varint_bytes(v).len() <= k,
    decreases k,
{
    vstd::arithmetic::power2::lemma2_to64();
    if v >= 128 {
        assert(k > 1);
        let j = (k - 1) as nat;
        vstd::arithmetic::power2::lemma_pow2_adds(7, 7 * j);
        assert(7 * k == 7 + 7 * j);
        let p = vstd::arithmetic::power2::pow2(7 * j);
        assert(v < 128 * p);
        assert(v / 128 < p);
        lemma_varint_bytes_len(v / 128, j);
    }
}

/// A 64-bit number takes one to ten bytes.
pub proof fn lemma_varint_bytes_u64(v: u64)
    ensures
        1 <= varint_bytes(v as nat).len() <= 10,
{
    vstd::arithmetic::power2::lemma2_to64_rest();
    vstd::arithmetic::power2::lemma_pow2_strictly_increases(64, 70);
    lemma_varint_bytes_len(v as nat, 10);
}

/// The number of bytes of a varint.
pub fn varint_len(v: u64) -> (r: usize)
    ensures
        r == varint_bytes(v as nat).len(),
{
    let mut n: usize = 1;
    let mut rest: u64 = v;
    proof {
        lemma_varint_bytes_u64(v);
    }
    while rest >= 128
        invariant
            1 <= n,
            varint_bytes(v as nat).len() <= 10,
            varint_bytes(v as nat).len() == n - 1 + varint_bytes(rest as nat).len(),
        decreases rest,
    {
        proof {
            lemma_varint_bytes_u64(rest / 128);
        }
        rest = rest / 128;
        n = n + 1;
    }
    n
}

/// Appends a varint.
pub fn put_varint(v: u64, out: &mut BytesMut)
    ensures
        buffer::draft(*final(out)) == buffer::draft(*old(out)) + varint_bytes(v as nat),
{
    let mut rest: u64 = v;
    let ghost base = buffer::draft(*out);
    let ghost mut done = Seq::<u8>::empty();
    proof {
        assert(base + done =~= base);
        assert(done + varint_bytes(v as nat) =~= varint_bytes(v as nat));
    }
    while rest >= 128
        invariant
            buffer::draft(*out) == base + done,
            varint_bytes(v as nat) == done + varint_bytes(rest as nat),
        decreases rest,
    {
        let low: u8 = (rest % 128) as u8;
        buffer::put_u8(out, low + 128);
        proof {
            let one = seq![(low + 128) as u8];
            let tail = varint_bytes((rest / 128) as nat);
            assert(varint_bytes(rest as nat) == one + tail);
            assert(done + (one + tail) =~= (done + one) + tail);
            assert((base + done).push((low + 128) as u8) =~= base + (done + one));
            done = done + one;
        }
        rest = rest / 128;
    }
    buffer::put_u8(out, rest as u8);
    proof {
        assert((base + done).push(rest as u8) =~= base + (done + seq![rest as u8]));
    }
}

/// The number of bytes of tag and length prefix.
fn header_len(field: u32, size: usize) -> (r: usize)
    ensures
        r == header(field as nat, size as nat).len(),
        r <= 20,
{
    proof {
        lemma_varint_bytes_u64((field as u64 * 8 + 2) as u64);
        lemma_varint_bytes_u64(size as u64);
    }
    varint_len(field as u64 * 8 + 2) + varint_len(size as u64)
}

// ---------------------------------------------------------------------------
// Masks and the assembled payload.

/// Mask bytes by mask id. Built once per policy from the redaction engine's
/// mask strings.
#[derive(Debug)]
pub struct MaskTable {
    masks: Vec<Bytes>,
}

/// The contents of several buffers.
pub open spec fn contents(bs: Seq<Bytes>) -> Seq<Seq<u8>> {
    bs.map_values(|b: Bytes| buffer::content(b))
}

impl View for MaskTable {
    type V = Seq<Seq<u8>>;

    closed spec fn view(&self) -> Seq<Seq<u8>> {
        contents(self.masks@)
    }
}

impl MaskTable {
    /// The table that holds the given masks, in order.
    pub fn new(masks: Vec<String>) -> (t: Self)
        ensures
            t@ == masks@.map_values(|m: String| vstd::utf8::encode_utf8(m@)),
    {
        let mut table: Vec<Bytes> = Vec::new();
        let mut i: usize = 0;
        while i < masks.len()
            invariant
                i <= masks@.len(),
                table@.len() == i,
                forall|j: int|
                    0 <= j < i ==> buffer::content(#[trigger] table@[j])
                        == vstd::utf8::encode_utf8(masks@[j]@),
            decreases masks@.len() - i,
        {
            table.push(Bytes::copy_from_slice(masks[i].as_str().as_bytes()));
            i = i + 1;
        }
        let t = MaskTable { masks: table };
        assert(t@ =~= masks@.map_values(|m: String| vstd::utf8::encode_utf8(m@)));
        t
    }

    /// The bytes of a mask, where the table holds it.
    pub fn bytes(&self, id: MaskId) -> (r: Option<&Bytes>)
        ensures
            match r {
                Some(b) => id.0 < self@.len() && buffer::content(*b) == self@[id.0 as int],
                None => id.0 >= self@.len(),
            },
    {
        if (id.0 as usize) < self.masks.len() {
            Some(&self.masks[id.0 as usize])
        } else {
            None
        }
    }
}

/// Several buffers, one after another.
pub open spec fn flat(chunks: Seq<Bytes>) -> Seq<u8>
    decreases chunks.len(),
{
    if chunks.len() == 0 {
        Seq::empty()
    } else {
        flat(chunks.drop_last()) + buffer::content(chunks.last())
    }
}

proof fn lemma_flat_push(chunks: Seq<Bytes>, c: Bytes)
    ensures
        flat(chunks.push(c)) == flat(chunks) + buffer::content(c),
{
    assert(chunks.push(c).drop_last() =~= chunks);
}

/// Chunks make up their bytes in order, each whole and none twice.
pub proof fn law_chunks_stand_in_order(chunks: Seq<Bytes>, c: Bytes)
    ensures
        flat(Seq::empty()) == Seq::<u8>::empty(),
        flat(chunks.push(c)) == flat(chunks) + buffer::content(c),
{
    lemma_flat_push(chunks, c);
}

/// The assembled request: chunks in order, for vectored writes.
#[derive(Debug)]
pub struct AssembledPayload {
    chunks: Vec<Bytes>,
    len: usize,
}

impl View for AssembledPayload {
    type V = Seq<u8>;

    /// The bytes of the request.
    closed spec fn view(&self) -> Seq<u8> {
        flat(self.chunks@)
    }
}

impl AssembledPayload {
    #[verifier::type_invariant]
    spec fn inv(self) -> bool {
        self.len == flat(self.chunks@).len()
    }

    /// The chunks, in order.
    pub closed spec fn pieces(self) -> Seq<Bytes> {
        self.chunks@
    }

    /// The chunks, in order.
    pub fn chunks(&self) -> (r: &[Bytes])
        ensures
            r@ == self.pieces(),
            flat(r@) == self@,
    {
        self.chunks.as_slice()
    }

    /// The number of bytes.
    pub fn len(&self) -> (r: usize)
        ensures
            r == self@.len(),
    {
        proof {
            use_type_invariant(self);
        }
        self.len
    }

    pub fn is_empty(&self) -> (r: bool)
        ensures
            r == (self@.len() == 0),
    {
        proof {
            use_type_invariant(self);
        }
        self.len == 0
    }

    /// Forwards the original buffer unchanged as one chunk.
    pub fn passthrough(raw: Bytes) -> (p: Self)
        ensures
            p.pieces() == seq![raw],
            p@ == buffer::content(raw),
    {
        let len: usize = raw.len();
        let mut chunks: Vec<Bytes> = Vec::new();
        proof {
            lemma_flat_push(chunks@, raw);
            assert(flat(chunks@.push(raw)) =~= buffer::content(raw));
        }
        chunks.push(raw);
        AssembledPayload { chunks, len }
    }

    /// One contiguous copy, for destinations that need a single buffer.
    pub fn contiguous(&self) -> (r: Vec<u8>)
        ensures
            r@ == self@,
    {
        let mut out: Vec<u8> = Vec::with_capacity(self.len);
        let mut i: usize = 0;
        while i < self.chunks.len()
            invariant
                i <= self.chunks@.len(),
                out@ == flat(self.chunks@.take(i as int)),
            decreases self.chunks@.len() - i,
        {
            proof {
                lemma_flat_push(self.chunks@.take(i as int), self.chunks@[i as int]);
                assert(self.chunks@.take(i + 1) =~= self.chunks@.take(i as int).push(
                    self.chunks@[i as int],
                ));
            }
            let ghost before = out@;
            let c = buffer::as_slice(&self.chunks[i]);
            out.extend_from_slice(c);
            assert(out@ =~= before + c@);
            i = i + 1;
        }
        assert(self.chunks@.take(i as int) =~= self.chunks@);
        out
    }
}

// ---------------------------------------------------------------------------
// Building the segment tree.

/// What became of a child message.
enum Child {
    /// No change: leave it inside the parent's verbatim run.
    Unchanged,
    /// Content changed: emit it again with new lengths.
    Rebuilt(Vec<Seg>),
}

/// Spans of record `idx` inside `window`, in order, overlaps resolved: the
/// first match wins.
fn effective_spans(env: &Envelope, idx: usize, window: &Range<usize>) -> (r: SpanList)
    ensures
        r@ == without_overlaps(
            ordered(
                in_window(
                    envelope::spans_of_record(env.decisions.entries(), idx as int),
                    window.start as int,
                    window.end as int,
                ),
            ),
            window.start as int,
        ),
{
    let all = env.decisions.redactions_for(idx);
    let mut spans = SpanList::inline();
    let ghost inside = |r: Redaction|
        r.target.start >= window.start as int && r.target.end <= window.end as int;
    proof {
        reveal(Seq::filter);
    }
    let mut i: usize = 0;
    while i < all.len()
        invariant
            i <= all@.len(),
            inside == (|r: Redaction|
                r.target.start >= window.start as int && r.target.end <= window.end as int),
            spans@ == all@.take(i as int).filter(inside),
        decreases all@.len() - i,
    {
        proof {
            reveal(Seq::filter);
            let head = all@.take(i as int);
            assert(all@.take(i + 1) =~= head.push(all@[i as int]));
            assert(head.push(all@[i as int]).drop_last() =~= head);
        }
        if all[i].target.start >= window.start && all[i].target.end <= window.end {
            spans.append(all[i].clone());
        }
        i = i + 1;
    }
    assert(all@.take(i as int) =~= all@);
    spans.sort();

    let sorted = spans.items();
    let mut out = SpanList::inline();
    let mut cursor: usize = window.start;
    let ghost target = without_overlaps(sorted@, window.start as int);
    proof {
        assert(sorted@.skip(0) =~= sorted@);
        assert(Seq::<Redaction>::empty() + target =~= target);
    }
    let mut i: usize = 0;
    while i < sorted.len()
        invariant
            i <= sorted@.len(),
            target == out@ + without_overlaps(sorted@.skip(i as int), cursor as int),
        decreases sorted@.len() - i,
    {
        proof {
            assert(sorted@.skip(i as int).drop_first() =~= sorted@.skip(i + 1));
        }
        if sorted[i].target.start >= cursor {
            cursor = sorted[i].target.end;
            proof {
                let one = seq![sorted@[i as int]];
                let rest = without_overlaps(sorted@.skip(i + 1), cursor as int);
                assert(out@ + (one + rest) =~= (out@ + one) + rest);
                assert(out@.push(sorted@[i as int]) =~= out@ + one);
            }
            out.append(sorted[i].clone());
        }
        i = i + 1;
    }
    assert(out@ + Seq::<Redaction>::empty() =~= out@);
    out
}

/// The decisions of an envelope and the masks they refer to.
pub open spec fn plan_of(env: Envelope, masks: MaskTable) -> Plan {
    Plan { verdicts: env.decisions.verdicts(), entries: env.decisions.entries(), masks: masks@ }
}

/// All verdicts, all spans and all masks decide, as they were given.
pub proof fn law_all_decisions_count(env: Envelope, masks: MaskTable)
    ensures
        plan_of(env, masks).verdicts == env.decisions.verdicts(),
        plan_of(env, masks).entries == env.decisions.entries(),
        plan_of(env, masks).masks == masks@,
{
}

/// Whether every span that ends in a buffer of `len` bytes starts there too.
pub open spec fn spans_fit(entries: Seq<StageRedaction>, len: nat) -> bool {
    forall|i: int|
        0 <= i < entries.len() && (#[trigger] entries[i]).redaction.target.end <= len
            ==> entries[i].redaction.target.start <= len
}

/// Whether every span starts in a buffer of `len` bytes.
spec fn starts_fit(spans: Seq<Redaction>, len: nat) -> bool {
    forall|i: int| 0 <= i < spans.len() ==> (#[trigger] spans[i]).target.start <= len
}

/// Whether every span has a property.
spec fn every(spans: Seq<Redaction>, p: spec_fn(Redaction) -> bool) -> bool {
    forall|i: int| 0 <= i < spans.len() ==> p(#[trigger] spans[i])
}

proof fn lemma_every_inserted(spans: Seq<Redaction>, x: Redaction, p: spec_fn(Redaction) -> bool)
    requires
        every(spans, p),
        p(x),
    ensures
        every(inserted(spans, x), p),
    decreases spans.len(),
{
    if spans.len() > 0 && comes_before(x, spans.last()) {
        lemma_every_inserted(spans.drop_last(), x, p);
    }
}

proof fn lemma_every_ordered(spans: Seq<Redaction>, p: spec_fn(Redaction) -> bool)
    requires
        every(spans, p),
    ensures
        every(ordered(spans), p),
    decreases spans.len(),
{
    if spans.len() > 0 {
        lemma_every_ordered(spans.drop_last(), p);
        lemma_every_inserted(ordered(spans.drop_last()), spans.last(), p);
    }
}

proof fn lemma_every_without_overlaps(
    spans: Seq<Redaction>,
    cursor: int,
    p: spec_fn(Redaction) -> bool,
)
    requires
        every(spans, p),
    ensures
        every(without_overlaps(spans, cursor), p),
    decreases spans.len(),
{
    if spans.len() > 0 {
        lemma_every_without_overlaps(spans.drop_first(), cursor, p);
        lemma_every_without_overlaps(spans.drop_first(), spans[0].target.end as int, p);
    }
}

/// What holds of every span in a window holds of every span that is applied
/// to the string there.
proof fn lemma_every_applied(
    plan: Plan,
    idx: int,
    lo: int,
    hi: int,
    p: spec_fn(Redaction) -> bool,
)
    requires
        forall|i: int|
            0 <= i < plan.entries.len() && (#[trigger] plan.entries[i]).redaction.target.start >= lo
                && plan.entries[i].redaction.target.end <= hi ==> p(plan.entries[i].redaction),
    ensures
        every(applied_spans(plan, idx, lo, hi), p),
{
    broadcast use vstd::seq_lib::group_filter_ensures;

    let mine = |e: StageRedaction| e.record == idx;
    let own = plan.entries.filter(mine);
    let spans = envelope::spans_of_record(plan.entries, idx);
    let inside = |r: Redaction| r.target.start >= lo && r.target.end <= hi;
    assert forall|i: int| 0 <= i < spans.filter(inside).len() implies p(
        #[trigger] spans.filter(inside)[i],
    ) by {
        let r = spans.filter(inside)[i];
        assert(inside(r));
        assert(spans.filter(inside).contains(r));
        spans.lemma_filter_contains_rev(inside, r);
        let j = choose|j: int| 0 <= j < spans.len() && spans[j] == r;
        assert(own[j].redaction == r);
        assert(own.contains(own[j]));
        plan.entries.lemma_filter_contains_rev(mine, own[j]);
        let k = choose|k: int| 0 <= k < plan.entries.len() && plan.entries[k] == own[j];
        assert(p(plan.entries[k].redaction));
    }
    lemma_every_ordered(in_window(spans, lo, hi), p);
    lemma_every_without_overlaps(ordered(in_window(spans, lo, hi)), lo, p);
}

/// Every span that is applied to a string starts in the buffer.
proof fn lemma_applied_fit(plan: Plan, idx: int, lo: int, hi: int, len: nat)
    requires
        spans_fit(plan.entries, len),
        hi <= len,
    ensures
        starts_fit(applied_spans(plan, idx, lo, hi), len),
{
    lemma_every_applied(plan, idx, lo, hi, |r: Redaction| r.target.start <= len);
}

/// A length, where it fits a `usize`.
spec fn capped(n: nat) -> Option<usize> {
    if n <= usize::MAX {
        Some(n as usize)
    } else {
        None
    }
}

/// A length that has grown by `n`.
fn grown(size: Option<usize>, n: usize, Ghost(len): Ghost<nat>) -> (r: Option<usize>)
    requires
        size == capped(len),
    ensures
        r == capped(len + n as nat),
{
    match size {
        Some(size) => size.checked_add(n),
        None => None,
    }
}

proof fn lemma_parts_push(b: Seq<u8>, masks: Seq<Seq<u8>>, parts: Seq<Part>, p: Part)
    ensures
        parts_bytes(b, masks, parts.push(p)) == parts_bytes(b, masks, parts) + part_bytes(
            b,
            masks,
            p,
        ),
{
    assert(parts.push(p).drop_last() =~= parts);
}

proof fn lemma_segs_push(b: Seq<u8>, masks: Seq<Seq<u8>>, segs: Seq<Seg>, s: Seg)
    ensures
        segs_bytes(b, masks, segs.push(s)) == segs_bytes(b, masks, segs) + seg_bytes(b, masks, s),
        segs_ok(b, masks, segs.push(s)) == (segs_ok(b, masks, segs) && seg_ok(b, masks, s)),
{
    assert(segs.push(s).drop_last() =~= segs);
}

/// The result of a splice whose first part is `done`.
spec fn spliced_after(done: Seq<u8>, rest: Result<Seq<u8>, AssembleError>) -> Result<
    Seq<u8>,
    AssembleError,
> {
    match rest {
        Ok(s) => Ok(done + s),
        Err(e) => Err(e),
    }
}

/// The first span of a splice is the bytes before it and its mask.
proof fn lemma_spliced_step(
    b: Seq<u8>,
    masks: Seq<Seq<u8>>,
    spans: Seq<Redaction>,
    cursor: int,
    hi: int,
    done: Seq<u8>,
)
    requires
        spans.len() > 0,
        spans[0].mask.0 < masks.len(),
    ensures
        spliced_after(done, spliced(b, masks, spans, cursor, hi)) == spliced_after(
            done + between(b, cursor, spans[0].target.start as int) + masks[spans[0].mask.0 as int],
            spliced(b, masks, spans.drop_first(), spans[0].target.end as int, hi),
        ),
{
    let gap = between(b, cursor, spans[0].target.start as int);
    let mask = masks[spans[0].mask.0 as int];
    let rest = spliced(b, masks, spans.drop_first(), spans[0].target.end as int, hi);
    assert(rest matches Ok(s) ==> done + (gap + mask + s) =~= (done + gap + mask) + s);
}

/// Spliced scalar for a string window, or `None` where no span touches it.
fn build_scalar(
    field: u32,
    window: &Range<usize>,
    idx: usize,
    buf: &[u8],
    env: &Envelope,
    masks: &MaskTable,
) -> (r: Result<Option<Seg>, AssembleError>)
    requires
        window.start <= window.end <= buf@.len(),
        spans_fit(env.decisions.entries(), buf@.len()),
    ensures
        ({
            let spans = applied_spans(
                plan_of(*env, *masks),
                idx as int,
                window.start as int,
                window.end as int,
            );
            if spans.len() == 0 {
                r == Ok::<Option<Seg>, AssembleError>(None)
            } else {
                match spliced(buf@, masks@, spans, window.start as int, window.end as int) {
                    Err(e) => r == Err::<Option<Seg>, AssembleError>(e),
                    Ok(s) => match replaced(field, s) {
                        Err(e) => r == Err::<Option<Seg>, AssembleError>(e),
                        Ok(p) => r matches Ok(Some(seg)) && seg_ok(buf@, masks@, seg) && seg_bytes(
                            buf@,
                            masks@,
                            seg,
                        ) == p.out,
                    },
                }
            }
        }),
{
    let spans = effective_spans(env, idx, window);
    let spans = spans.items();
    if spans.len() == 0 {
        return Ok(None);
    }
    let ghost all = spliced(buf@, masks@, spans@, window.start as int, window.end as int);
    proof {
        lemma_applied_fit(
            plan_of(*env, *masks),
            idx as int,
            window.start as int,
            window.end as int,
            buf@.len(),
        );
        assert(spans@.skip(0) =~= spans@);
        assert(all matches Ok(s) ==> Seq::<u8>::empty() + s =~= s);
    }
    let mut parts: Vec<Part> = Vec::new();
    let mut size: Option<usize> = Some(0);
    let mut cursor: usize = window.start;
    let mut i: usize = 0;
    while i < spans.len()
        invariant
            i <= spans@.len(),
            spans@.len() > 0,
            spans@ == applied_spans(
                plan_of(*env, *masks),
                idx as int,
                window.start as int,
                window.end as int,
            ),
            all == spliced(buf@, masks@, spans@, window.start as int, window.end as int),
            starts_fit(spans@, buf@.len()),
            size == capped(parts_bytes(buf@, masks@, parts@).len()),
            forall|j: int| 0 <= j < parts@.len() ==> part_ok(buf@, masks@, #[trigger] parts@[j]),
            all == spliced_after(
                parts_bytes(buf@, masks@, parts@),
                spliced(
                    buf@,
                    masks@,
                    spans@.skip(i as int),
                    cursor as int,
                    window.end as int,
                ),
            ),
        decreases spans@.len() - i,
    {
        let r = &spans[i];
        let ghost done = parts_bytes(buf@, masks@, parts@);
        let ghost gap = between(buf@, cursor as int, r.target.start as int);
        proof {
            assert(spans@.skip(i as int).drop_first() =~= spans@.skip(i + 1));
            assert(spans@.skip(i as int)[0] == *r);
        }
        if r.target.start > cursor {
            proof {
                lemma_parts_push(buf@, masks@, parts@, Part::Raw(cursor..r.target.start));
            }
            parts.push(Part::Raw(cursor..r.target.start));
            size = grown(size, r.target.start - cursor, Ghost(done.len()));
        }
        assert(parts_bytes(buf@, masks@, parts@) =~= done + gap);
        match masks.bytes(r.mask) {
            Some(mask) => {
                size = grown(size, mask.len(), Ghost((done + gap).len()));
            },
            None => {
                return Err(AssembleError::UnknownMask(r.mask.0));
            },
        }
        proof {
            lemma_parts_push(buf@, masks@, parts@, Part::Mask(r.mask));
            lemma_spliced_step(
                buf@,
                masks@,
                spans@.skip(i as int),
                cursor as int,
                window.end as int,
                done,
            );
        }
        parts.push(Part::Mask(r.mask));
        cursor = r.target.end;
        i = i + 1;
    }
    let ghost done = parts_bytes(buf@, masks@, parts@);
    if cursor < window.end {
        proof {
            lemma_parts_push(buf@, masks@, parts@, Part::Raw(cursor..window.end));
        }
        parts.push(Part::Raw(cursor..window.end));
        size = grown(size, window.end - cursor, Ghost(done.len()));
    }
    assert(parts_bytes(buf@, masks@, parts@) =~= done + between(
        buf@,
        cursor as int,
        window.end as int,
    ));
    match size {
        Some(size) => Ok(Some(Seg::Scalar { field, size, parts })),
        None => Err(AssembleError::TooLarge),
    }
}

fn seg_encoded_len(seg: &Seg, buf: &[u8], masks: &MaskTable) -> (r: Option<usize>)
    requires
        seg_ok(buf@, masks@, *seg),
    ensures
        r == capped(seg_bytes(buf@, masks@, *seg).len()),
{
    match seg {
        Seg::Verbatim(r) => Some(r.end - r.start),
        Seg::Nested { field, size, segs } => header_len(*field, *size).checked_add(*size),
        Seg::Scalar { field, size, parts } => header_len(*field, *size).checked_add(*size),
    }
}

/// The number of bytes that segments will take, where it fits a `usize`.
fn segs_encoded_len(segs: &Vec<Seg>, buf: &[u8], masks: &MaskTable) -> (r: Option<usize>)
    requires
        segs_ok(buf@, masks@, segs@),
    ensures
        r == capped(segs_bytes(buf@, masks@, segs@).len()),
{
    let mut size: Option<usize> = Some(0);
    let mut i: usize = 0;
    proof {
        assert(segs@.take(segs@.len() as int) =~= segs@);
        lemma_segs_ok_take(buf@, masks@, segs@, segs@.len() as int);
    }
    while i < segs.len()
        invariant
            i <= segs@.len(),
            forall|j: int| 0 <= j < segs@.len() ==> seg_ok(buf@, masks@, #[trigger] segs@[j]),
            size == capped(segs_bytes(buf@, masks@, segs@.take(i as int)).len()),
        decreases segs@.len() - i,
    {
        proof {
            lemma_segs_push(buf@, masks@, segs@.take(i as int), segs@[i as int]);
            assert(segs@.take(i + 1) =~= segs@.take(i as int).push(segs@[i as int]));
        }
        let ghost before = segs_bytes(buf@, masks@, segs@.take(i as int)).len();
        size = match seg_encoded_len(&segs[i], buf, masks) {
            Some(n) => grown(size, n, Ghost(before)),
            None => None,
        };
        i = i + 1;
    }
    assert(segs@.take(i as int) =~= segs@);
    size
}

/// Every segment of a sound list is sound.
proof fn lemma_segs_ok_take(b: Seq<u8>, masks: Seq<Seq<u8>>, segs: Seq<Seg>, n: int)
    requires
        0 <= n <= segs.len(),
        segs_ok(b, masks, segs.take(n)),
    ensures
        forall|j: int| 0 <= j < n ==> seg_ok(b, masks, #[trigger] segs[j]),
    decreases n,
{
    if n > 0 {
        assert(segs.take(n).drop_last() =~= segs.take(n - 1));
        lemma_segs_ok_take(b, masks, segs, n - 1);
    }
}

/// How far a message has been rewritten: `segs` and then the verbatim run
/// from `run` up to `pos` stand for the fields before `pos`.
spec fn rewritten_to(
    plan: Plan,
    b: Seq<u8>,
    level: Level,
    window: (int, int),
    from: int,
    pos: int,
    idx: int,
    segs: Seq<Seg>,
    run: int,
    changed: bool,
) -> bool {
    &&& window.0 <= run <= pos <= window.1 <= b.len()
    &&& segs_ok(b, plan.masks, segs)
    &&& rewritten(plan, b, level, window.0, window.1, from) == after(
        Rewrite { changed, out: segs_bytes(b, plan.masks, segs) + b.subrange(run, pos) },
        rewritten(plan, b, level, pos, window.1, idx),
    )
    &&& !changed ==> segs.len() == 0 && run == window.0
}

/// Nothing is rewritten yet.
proof fn lemma_rewritten_start(plan: Plan, b: Seq<u8>, level: Level, window: (int, int), idx: int)
    requires
        0 <= window.0 <= window.1 <= b.len(),
    ensures
        rewritten_to(
            plan,
            b,
            level,
            window,
            idx,
            window.0,
            idx,
            Seq::empty(),
            window.0,
            false,
        ),
{
    let whole = rewritten(plan, b, level, window.0, window.1, idx);
    let none = segs_bytes(b, plan.masks, Seq::empty()) + b.subrange(window.0, window.0);
    assert(none =~= Seq::<u8>::empty());
    assert(whole matches Ok((r, n)) ==> none + r.out =~= r.out);
}

/// Two stretches after one another are one stretch.
proof fn lemma_after_after(p: Rewrite, q: Rewrite, rest: Result<(Rewrite, int), AssembleError>)
    ensures
        after(p, after(q, rest)) == after(
            Rewrite { changed: p.changed || q.changed, out: p.out + q.out },
            rest,
        ),
{
    assert(rest matches Ok((r, n)) ==> p.out + (q.out + r.out) =~= (p.out + q.out) + r.out);
}

/// A field that stays as it is lengthens the verbatim run.
proof fn lemma_rewritten_kept(
    plan: Plan,
    b: Seq<u8>,
    level: Level,
    window: (int, int),
    from: int,
    pos: int,
    idx: int,
    segs: Seq<Seg>,
    run: int,
    changed: bool,
    next: int,
    n: int,
)
    requires
        rewritten_to(plan, b, level, window, from, pos, idx, segs, run, changed),
        0 <= window.0,
        pos <= next <= window.1,
        rewritten(plan, b, level, pos, window.1, idx) == after(
            kept(b, pos, next),
            rewritten(plan, b, level, next, window.1, n),
        ),
    ensures
        rewritten_to(plan, b, level, window, from, next, n, segs, run, changed),
{
    let out = segs_bytes(b, plan.masks, segs);
    lemma_after_after(
        Rewrite { changed, out: out + b.subrange(run, pos) },
        kept(b, pos, next),
        rewritten(plan, b, level, next, window.1, n),
    );
    assert((out + b.subrange(run, pos)) + b.subrange(pos, next) =~= out + b.subrange(run, next));
}

/// A changed field ends the verbatim run, and the next one starts behind it.
proof fn lemma_rewritten_changed(
    plan: Plan,
    b: Seq<u8>,
    level: Level,
    window: (int, int),
    from: int,
    pos: int,
    idx: int,
    segs: Seq<Seg>,
    run: int,
    changed: bool,
    piece: Seq<u8>,
    segs2: Seq<Seg>,
    next: int,
    n: int,
)
    requires
        rewritten_to(plan, b, level, window, from, pos, idx, segs, run, changed),
        0 <= window.0,
        pos <= next <= window.1,
        rewritten(plan, b, level, pos, window.1, idx) == after(
            Rewrite { changed: true, out: piece },
            rewritten(plan, b, level, next, window.1, n),
        ),
        segs_ok(b, plan.masks, segs2),
        segs_bytes(b, plan.masks, segs2) == segs_bytes(b, plan.masks, segs) + b.subrange(run, pos)
            + piece,
    ensures
        rewritten_to(plan, b, level, window, from, next, n, segs2, next, true),
{
    let out = segs_bytes(b, plan.masks, segs);
    lemma_after_after(
        Rewrite { changed, out: out + b.subrange(run, pos) },
        Rewrite { changed: true, out: piece },
        rewritten(plan, b, level, next, window.1, n),
    );
    assert(segs_bytes(b, plan.masks, segs2) + b.subrange(next, next) =~= out + b.subrange(run, pos)
        + piece);
}

/// Ends a verbatim run.
fn push_run(segs: &mut Vec<Seg>, run: usize, end: usize, buf: &[u8], masks: &MaskTable)
    requires
        run <= end <= buf@.len(),
        segs_ok(buf@, masks@, old(segs)@),
    ensures
        segs_ok(buf@, masks@, final(segs)@),
        segs_bytes(buf@, masks@, final(segs)@) == segs_bytes(buf@, masks@, old(segs)@)
            + buf@.subrange(run as int, end as int),
{
    if run < end {
        proof {
            lemma_segs_push(buf@, masks@, segs@, Seg::Verbatim(run..end));
        }
        segs.push(Seg::Verbatim(run..end));
    } else {
        assert(segs_bytes(buf@, masks@, segs@) + buf@.subrange(run as int, end as int)
            =~= segs_bytes(buf@, masks@, segs@));
    }
}

/// A message field around a changed payload.
fn nest(field: u32, inner: Vec<Seg>, buf: &[u8], masks: &MaskTable) -> (r: Result<
    Seg,
    AssembleError,
>)
    requires
        segs_ok(buf@, masks@, inner@),
    ensures
        match replaced(field, segs_bytes(buf@, masks@, inner@)) {
            Err(e) => r == Err::<Seg, AssembleError>(e),
            Ok(p) => r matches Ok(seg) && seg_ok(buf@, masks@, seg) && seg_bytes(
                buf@,
                masks@,
                seg,
            ) == p.out,
        },
{
    match segs_encoded_len(&inner, buf, masks) {
        Some(size) => Ok(Seg::Nested { field, size, segs: inner }),
        None => Err(AssembleError::TooLarge),
    }
}

/// What a message's walk hands to the message around it.
spec fn child_is(
    b: Seq<u8>,
    masks: Seq<Seq<u8>>,
    want: Result<(Rewrite, int), AssembleError>,
    got: Result<Child, AssembleError>,
) -> bool {
    match want {
        Err(e) => got == Err::<Child, AssembleError>(e),
        Ok((r, n)) => if r.changed {
            got matches Ok(Child::Rebuilt(segs)) && segs_ok(b, masks, segs@) && segs_bytes(
                b,
                masks,
                segs@,
            ) == r.out
        } else {
            got matches Ok(Child::Unchanged)
        },
    }
}

/// The end of a message's walk.
fn finish(
    changed: bool,
    segs: Vec<Seg>,
    run: usize,
    window: &Range<usize>,
    buf: &[u8],
    masks: &MaskTable,
    Ghost(plan): Ghost<Plan>,
    Ghost(level): Ghost<Level>,
    Ghost(from): Ghost<int>,
    Ghost(idx): Ghost<int>,
) -> (r: Child)
    requires
        plan.masks == masks@,
        rewritten_to(
            plan,
            buf@,
            level,
            (window.start as int, window.end as int),
            from,
            window.end as int,
            idx,
            segs@,
            run as int,
            changed,
        ),
    ensures
        rewritten(plan, buf@, level, window.start as int, window.end as int, from) matches Ok((w, n))
            && n == idx,
        child_is(
            buf@,
            masks@,
            rewritten(plan, buf@, level, window.start as int, window.end as int, from),
            Ok(r),
        ),
{
    let ghost out = segs_bytes(buf@, masks@, segs@) + buf@.subrange(
        run as int,
        window.end as int,
    );
    assert(out + Seq::<u8>::empty() =~= out);
    if !changed {
        return Child::Unchanged;
    }
    let mut segs = segs;
    push_run(&mut segs, run, window.end, buf, masks);
    Child::Rebuilt(segs)
}

/// AnyValue: rewrite its strings that spans touch.
fn build_any_value(
    buf: &[u8],
    window: Range<usize>,
    idx: usize,
    env: &Envelope,
    masks: &MaskTable,
) -> (r: Result<Child, AssembleError>)
    requires
        window.start <= window.end <= buf@.len(),
        spans_fit(env.decisions.entries(), buf@.len()),
    ensures
        child_is(
            buf@,
            masks@,
            rewritten(
                plan_of(*env, *masks),
                buf@,
                Level::AnyValue,
                window.start as int,
                window.end as int,
                idx as int,
            ),
            r,
        ),
{
    let ghost plan = plan_of(*env, *masks);
    let ghost level = Level::AnyValue;
    let ghost w = (window.start as int, window.end as int);
    let ghost i = idx as int;
    let mut cur = WireCursor::new(buf, window.start..window.end);
    let mut segs: Vec<Seg> = Vec::new();
    let mut run: usize = window.start;
    let mut changed: bool = false;
    proof {
        lemma_rewritten_start(plan, buf@, level, w, i);
    }
    while !cur.done()
        invariant
            plan == plan_of(*env, *masks),
            level == Level::AnyValue,
            w == (window.start as int, window.end as int),
            i == idx,
            spans_fit(env.decisions.entries(), buf@.len()),
            cur.buffer() == buf@,
            cur.limit() == window.end,
            rewritten_to(plan, buf@, level, w, i, cur.at(), i, segs@, run as int, changed),
        decreases cur.limit() - cur.at(),
    {
        let tag_start: usize = cur.pos();
        let f = match cur.field() {
            Ok(f) => f,
            Err(e) => {
                return Err(AssembleError::Wire(e));
            },
        };
        let ghost before = segs@;
        let mut scalar: Option<Seg> = None;
        if f.num == 1 && f.wire == 2 {
            match build_scalar(1, &(f.start..f.end), idx, buf, env, masks) {
                Ok(s) => {
                    scalar = s;
                },
                Err(e) => {
                    return Err(e);
                },
            }
        }
        match scalar {
            Some(seg) => {
                push_run(&mut segs, run, tag_start, buf, masks);
                proof {
                    lemma_segs_push(buf@, masks@, segs@, seg);
                    lemma_rewritten_changed(
                        plan,
                        buf@,
                        level,
                        w,
                        i,
                        tag_start as int,
                        i,
                        before,
                        run as int,
                        changed,
                        seg_bytes(buf@, masks@, seg),
                        segs@.push(seg),
                        f.end as int,
                        i,
                    );
                }
                segs.push(seg);
                run = f.end;
                changed = true;
            },
            None => {
                proof {
                    lemma_rewritten_kept(
                        plan,
                        buf@,
                        level,
                        w,
                        i,
                        tag_start as int,
                        i,
                        segs@,
                        run as int,
                        changed,
                        f.end as int,
                        i,
                    );
                }
            },
        }
    }
    Ok(finish(changed, segs, run, &window, buf, masks, Ghost(plan), Ghost(level), Ghost(i), Ghost(i)))
}

/// Below a container the record index never moves.
proof fn lemma_index_fixed(plan: Plan, b: Seq<u8>, level: Level, pos: int, end: int, idx: int)
    requires
        rank(level) <= 2,
    ensures
        rewritten(plan, b, level, pos, end, idx) matches Ok((r, n)) ==> n == idx,
    decreases rank(level), end - pos,
{
    if pos < end {
        if let Ok(f) = wire::field_at(b, pos, end) {
            wire::lemma_field_bounds(b, pos, end);
            lemma_index_fixed(plan, b, level, f.next, end, idx);
            if let Some(child) = child_of(level, f.num) {
                lemma_index_fixed(plan, b, child, f.lo, f.next, idx);
            }
        }
    }
}

/// KeyValue: the key stays; the value may be rewritten.
fn build_key_value(
    buf: &[u8],
    window: Range<usize>,
    idx: usize,
    env: &Envelope,
    masks: &MaskTable,
) -> (r: Result<Child, AssembleError>)
    requires
        window.start <= window.end <= buf@.len(),
        spans_fit(env.decisions.entries(), buf@.len()),
    ensures
        child_is(
            buf@,
            masks@,
            rewritten(
                plan_of(*env, *masks),
                buf@,
                Level::KeyValue,
                window.start as int,
                window.end as int,
                idx as int,
            ),
            r,
        ),
{
    let ghost plan = plan_of(*env, *masks);
    let ghost level = Level::KeyValue;
    let ghost w = (window.start as int, window.end as int);
    let ghost i = idx as int;
    let mut cur = WireCursor::new(buf, window.start..window.end);
    let mut segs: Vec<Seg> = Vec::new();
    let mut run: usize = window.start;
    let mut changed: bool = false;
    proof {
        lemma_rewritten_start(plan, buf@, level, w, i);
    }
    while !cur.done()
        invariant
            plan == plan_of(*env, *masks),
            level == Level::KeyValue,
            w == (window.start as int, window.end as int),
            i == idx,
            spans_fit(env.decisions.entries(), buf@.len()),
            cur.buffer() == buf@,
            cur.limit() == window.end,
            rewritten_to(plan, buf@, level, w, i, cur.at(), i, segs@, run as int, changed),
        decreases cur.limit() - cur.at(),
    {
        let tag_start: usize = cur.pos();
        let f = match cur.field() {
            Ok(f) => f,
            Err(e) => {
                return Err(AssembleError::Wire(e));
            },
        };
        let ghost before = segs@;
        let mut child: Child = Child::Unchanged;
        if f.num == 2 && f.wire == 2 {
            proof {
                lemma_index_fixed(plan, buf@, Level::AnyValue, f.start as int, f.end as int, i);
            }
            match build_any_value(buf, f.start..f.end, idx, env, masks) {
                Ok(c) => {
                    child = c;
                },
                Err(e) => {
                    return Err(e);
                },
            }
        }
        match child {
            Child::Rebuilt(inner) => {
                let seg = match nest(f.num, inner, buf, masks) {
                    Ok(seg) => seg,
                    Err(e) => {
                        return Err(e);
                    },
                };
                push_run(&mut segs, run, tag_start, buf, masks);
                proof {
                    lemma_segs_push(buf@, masks@, segs@, seg);
                    lemma_rewritten_changed(
                        plan,
                        buf@,
                        level,
                        w,
                        i,
                        tag_start as int,
                        i,
                        before,
                        run as int,
                        changed,
                        seg_bytes(buf@, masks@, seg),
                        segs@.push(seg),
                        f.end as int,
                        i,
                    );
                }
                segs.push(seg);
                run = f.end;
                changed = true;
            },
            Child::Unchanged => {
                proof {
                    lemma_rewritten_kept(
                        plan,
                        buf@,
                        level,
                        w,
                        i,
                        tag_start as int,
                        i,
                        segs@,
                        run as int,
                        changed,
                        f.end as int,
                        i,
                    );
                }
            },
        }
    }
    Ok(finish(changed, segs, run, &window, buf, masks, Ghost(plan), Ghost(level), Ghost(i), Ghost(i)))
}

/// LogRecord that is kept: its body (5) and attributes (6) may be rewritten.
fn build_record(
    buf: &[u8],
    window: Range<usize>,
    idx: usize,
    env: &Envelope,
    masks: &MaskTable,
) -> (r: Result<Child, AssembleError>)
    requires
        window.start <= window.end <= buf@.len(),
        spans_fit(env.decisions.entries(), buf@.len()),
    ensures
        child_is(
            buf@,
            masks@,
            rewritten(
                plan_of(*env, *masks),
                buf@,
                Level::Record,
                window.start as int,
                window.end as int,
                idx as int,
            ),
            r,
        ),
{
    let ghost plan = plan_of(*env, *masks);
    let ghost level = Level::Record;
    let ghost w = (window.start as int, window.end as int);
    let ghost i = idx as int;
    let mut cur = WireCursor::new(buf, window.start..window.end);
    let mut segs: Vec<Seg> = Vec::new();
    let mut run: usize = window.start;
    let mut changed: bool = false;
    proof {
        lemma_rewritten_start(plan, buf@, level, w, i);
    }
    while !cur.done()
        invariant
            plan == plan_of(*env, *masks),
            level == Level::Record,
            w == (window.start as int, window.end as int),
            i == idx,
            spans_fit(env.decisions.entries(), buf@.len()),
            cur.buffer() == buf@,
            cur.limit() == window.end,
            rewritten_to(plan, buf@, level, w, i, cur.at(), i, segs@, run as int, changed),
        decreases cur.limit() - cur.at(),
    {
        let tag_start: usize = cur.pos();
        let f = match cur.field() {
            Ok(f) => f,
            Err(e) => {
                return Err(AssembleError::Wire(e));
            },
        };
        let ghost before = segs@;
        let mut child: Child = Child::Unchanged;
        if f.num == 5 && f.wire == 2 {
            proof {
                lemma_index_fixed(plan, buf@, Level::AnyValue, f.start as int, f.end as int, i);
            }
            match build_any_value(buf, f.start..f.end, idx, env, masks) {
                Ok(c) => {
                    child = c;
                },
                Err(e) => {
                    return Err(e);
                },
            }
        } else if f.num == 6 && f.wire == 2 {
            proof {
                lemma_index_fixed(plan, buf@, Level::KeyValue, f.start as int, f.end as int, i);
            }
            match build_key_value(buf, f.start..f.end, idx, env, masks) {
                Ok(c) => {
                    child = c;
                },
                Err(e) => {
                    return Err(e);
                },
            }
        }
        match child {
            Child::Rebuilt(inner) => {
                let seg = match nest(f.num, inner, buf, masks) {
                    Ok(seg) => seg,
                    Err(e) => {
                        return Err(e);
                    },
                };
                push_run(&mut segs, run, tag_start, buf, masks);
                proof {
                    lemma_segs_push(buf@, masks@, segs@, seg);
                    lemma_rewritten_changed(
                        plan,
                        buf@,
                        level,
                        w,
                        i,
                        tag_start as int,
                        i,
                        before,
                        run as int,
                        changed,
                        seg_bytes(buf@, masks@, seg),
                        segs@.push(seg),
                        f.end as int,
                        i,
                    );
                }
                segs.push(seg);
                run = f.end;
                changed = true;
            },
            Child::Unchanged => {
                proof {
                    lemma_rewritten_kept(
                        plan,
                        buf@,
                        level,
                        w,
                        i,
                        tag_start as int,
                        i,
                        segs@,
                        run as int,
                        changed,
                        f.end as int,
                        i,
                    );
                }
            },
        }
    }
    Ok(finish(changed, segs, run, &window, buf, masks, Ghost(plan), Ghost(level), Ghost(i), Ghost(i)))
}

/// Fields of a container only add records, one per field at most.
proof fn lemma_index_bound(plan: Plan, b: Seq<u8>, level: Level, pos: int, end: int, idx: int)
    requires
        pos <= end,
        idx <= pos,
    ensures
        rewritten(plan, b, level, pos, end, idx) matches Ok((r, n)) ==> idx <= n <= end,
    decreases rank(level), end - pos,
{
    if pos < end {
        if let Ok(f) = wire::field_at(b, pos, end) {
            wire::lemma_field_bounds(b, pos, end);
            lemma_index_bound(plan, b, level, f.next, end, idx);
            lemma_index_bound(plan, b, level, f.next, end, idx + 1);
            if let Some(child) = child_of(level, f.num) {
                lemma_index_bound(plan, b, child, f.lo, f.next, idx);
                if let Ok((inner, n)) = rewritten(plan, b, child, f.lo, f.next, idx) {
                    lemma_index_bound(plan, b, level, f.next, end, n);
                }
            }
        }
    }
}

/// ScopeLogs, ResourceLogs, request: one walk. The level selects the repeated
/// child; the record index advances by one per LogRecord.
fn build_container(
    buf: &[u8],
    window: Range<usize>,
    env: &Envelope,
    masks: &MaskTable,
    rec_idx: &mut usize,
    level: Level,
) -> (r: Result<Child, AssembleError>)
    requires
        *old(rec_idx) <= window.start <= window.end <= buf@.len(),
        spans_fit(env.decisions.entries(), buf@.len()),
        rank(level) >= 3,
    ensures
        child_is(
            buf@,
            masks@,
            rewritten(
                plan_of(*env, *masks),
                buf@,
                level,
                window.start as int,
                window.end as int,
                *old(rec_idx) as int,
            ),
            r,
        ),
        rewritten(
            plan_of(*env, *masks),
            buf@,
            level,
            window.start as int,
            window.end as int,
            *old(rec_idx) as int,
        ) matches Ok((w, n)) ==> *final(rec_idx) == n,
    decreases rank(level),
{
    let ghost plan = plan_of(*env, *masks);
    let ghost w = (window.start as int, window.end as int);
    let ghost from = *rec_idx as int;
    let mut cur = WireCursor::new(buf, window.start..window.end);
    let mut segs: Vec<Seg> = Vec::new();
    let mut run: usize = window.start;
    let mut changed: bool = false;
    let child_field: u32 = match level {
        Level::Request => 1,
        _ => 2,
    };
    proof {
        lemma_rewritten_start(plan, buf@, level, w, from);
    }
    while !cur.done()
        invariant
            plan == plan_of(*env, *masks),
            rank(level) >= 3,
            child_field == (if level == Level::Request {
                1u32
            } else {
                2u32
            }),
            w == (window.start as int, window.end as int),
            from == *old(rec_idx),
            spans_fit(env.decisions.entries(), buf@.len()),
            cur.buffer() == buf@,
            cur.limit() == window.end,
            *rec_idx <= cur.at(),
            rewritten_to(
                plan,
                buf@,
                level,
                w,
                from,
                cur.at(),
                *rec_idx as int,
                segs@,
                run as int,
                changed,
            ),
        decreases cur.limit() - cur.at(),
    {
        let tag_start: usize = cur.pos();
        let ghost i = *rec_idx as int;
        let f = match cur.field() {
            Ok(f) => f,
            Err(e) => {
                return Err(AssembleError::Wire(e));
            },
        };
        let ghost before = segs@;
        let mut child: Child = Child::Unchanged;
        let mut dropped: bool = false;
        if f.num == child_field && f.wire == 2 {
            let built = match level {
                Level::Scope => {
                    let idx: usize = *rec_idx;
                    *rec_idx = idx + 1;
                    if env.decisions.sampling_verdict(idx) == SampleVerdict::Drop {
                        dropped = true;
                        Ok(Child::Unchanged)
                    } else {
                        build_record(buf, f.start..f.end, idx, env, masks)
                    }
                },
                Level::Resource => {
                    proof {
                        lemma_index_bound(
                            plan,
                            buf@,
                            Level::Scope,
                            f.start as int,
                            f.end as int,
                            i,
                        );
                    }
                    build_container(buf, f.start..f.end, env, masks, rec_idx, Level::Scope)
                },
                _ => {
                    proof {
                        lemma_index_bound(
                            plan,
                            buf@,
                            Level::Resource,
                            f.start as int,
                            f.end as int,
                            i,
                        );
                    }
                    build_container(buf, f.start..f.end, env, masks, rec_idx, Level::Resource)
                },
            };
            match built {
                Ok(c) => {
                    child = c;
                },
                Err(e) => {
                    return Err(e);
                },
            }
        }
        if dropped {
            push_run(&mut segs, run, tag_start, buf, masks);
            proof {
                let none = Seq::<u8>::empty();
                assert(segs_bytes(buf@, masks@, segs@) + none =~= segs_bytes(buf@, masks@, segs@));
                lemma_rewritten_changed(
                    plan,
                    buf@,
                    level,
                    w,
                    from,
                    tag_start as int,
                    i,
                    before,
                    run as int,
                    changed,
                    none,
                    segs@,
                    f.end as int,
                    *rec_idx as int,
                );
            }
            run = f.end;
            changed = true;
        } else {
            match child {
                Child::Rebuilt(inner) => {
                    let seg = match nest(child_field, inner, buf, masks) {
                        Ok(seg) => seg,
                        Err(e) => {
                            return Err(e);
                        },
                    };
                    push_run(&mut segs, run, tag_start, buf, masks);
                    proof {
                        lemma_segs_push(buf@, masks@, segs@, seg);
                        lemma_rewritten_changed(
                            plan,
                            buf@,
                            level,
                            w,
                            from,
                            tag_start as int,
                            i,
                            before,
                            run as int,
                            changed,
                            seg_bytes(buf@, masks@, seg),
                            segs@.push(seg),
                            f.end as int,
                            *rec_idx as int,
                        );
                    }
                    segs.push(seg);
                    run = f.end;
                    changed = true;
                },
                Child::Unchanged => {
                    proof {
                        lemma_rewritten_kept(
                            plan,
                            buf@,
                            level,
                            w,
                            from,
                            tag_start as int,
                            i,
                            segs@,
                            run as int,
                            changed,
                            f.end as int,
                            *rec_idx as int,
                        );
                    }
                },
            }
        }
    }
    Ok(
        finish(
            changed,
            segs,
            run,
            &window,
            buf,
            masks,
            Ghost(plan),
            Ghost(level),
            Ghost(from),
            Ghost(*rec_idx as int),
        ),
    )
}

/// How many records stand before what follows, where the fields of a message
/// from `pos` on can all be read, down to the values in every record that is
/// kept; `None` where they cannot.
pub open spec fn read_through(
    verdicts: Seq<SampleVerdict>,
    b: Seq<u8>,
    level: Level,
    pos: int,
    end: int,
    idx: int,
) -> Option<int>
    decreases rank(level), end - pos,
{
    if pos >= end {
        Some(idx)
    } else {
        match wire::field_at(b, pos, end) {
            Err(_) => None,
            Ok(f) => {
                proof {
                    wire::lemma_field_bounds(b, pos, end);
                }
                match child_of(level, f.num) {
                    Some(child) => if f.wire != 2 {
                        read_through(verdicts, b, level, f.next, end, idx)
                    } else if child == Level::Record && envelope::verdict_at(verdicts, idx)
                        == SampleVerdict::Drop {
                        read_through(verdicts, b, level, f.next, end, idx + 1)
                    } else {
                        match read_through(verdicts, b, child, f.lo, f.next, idx) {
                            None => None,
                            Some(n) => read_through(
                                verdicts,
                                b,
                                level,
                                f.next,
                                end,
                                if child == Level::Record {
                                    idx + 1
                                } else {
                                    n
                                },
                            ),
                        }
                    },
                    None => read_through(verdicts, b, level, f.next, end, idx),
                }
            },
        }
    }
}

/// Whether every span names a mask of the table.
pub open spec fn masks_known(plan: Plan) -> bool {
    forall|i: int|
        0 <= i < plan.entries.len() ==> (#[trigger] plan.entries[i]).redaction.mask.0
            < plan.masks.len()
}

proof fn lemma_spliced_known(
    b: Seq<u8>,
    masks: Seq<Seq<u8>>,
    spans: Seq<Redaction>,
    cursor: int,
    hi: int,
)
    requires
        every(spans, |r: Redaction| r.mask.0 < masks.len()),
    ensures
        spliced(b, masks, spans, cursor, hi) is Ok,
    decreases spans.len(),
{
    if spans.len() > 0 {
        let known = |r: Redaction| r.mask.0 < masks.len();
        assert(known(spans[0]));
        assert forall|i: int| 0 <= i < spans.drop_first().len() implies known(
            #[trigger] spans.drop_first()[i],
        ) by {
            assert(known(spans[i + 1]));
        }
        lemma_spliced_known(b, masks, spans.drop_first(), spans[0].target.end as int, hi);
    }
}

/// Where every span names a mask of the table, no mask is found missing.
pub proof fn law_known_masks_are_found(
    plan: Plan,
    b: Seq<u8>,
    level: Level,
    pos: int,
    end: int,
    idx: int,
)
    requires
        masks_known(plan),
    ensures
        rewritten(plan, b, level, pos, end, idx) matches Err(e) ==> e is Wire || e is TooLarge,
    decreases rank(level), end - pos,
{
    if pos < end {
        if let Ok(f) = wire::field_at(b, pos, end) {
            wire::lemma_field_bounds(b, pos, end);
            law_known_masks_are_found(plan, b, level, f.next, end, idx);
            law_known_masks_are_found(plan, b, level, f.next, end, idx + 1);
            let known = |r: Redaction| r.mask.0 < plan.masks.len();
            lemma_every_applied(plan, idx, f.lo, f.next, known);
            let spans = applied_spans(plan, idx, f.lo, f.next);
            lemma_spliced_known(b, plan.masks, spans, f.lo, f.next);
            if let Some(child) = child_of(level, f.num) {
                law_known_masks_are_found(plan, b, child, f.lo, f.next, idx);
                if let Ok((inner, n)) = rewritten(plan, b, child, f.lo, f.next, idx) {
                    law_known_masks_are_found(plan, b, level, f.next, end, n);
                }
            }
        }
    }
}

/// Where a message can be read through and every span names a mask of the
/// table, rewriting fails for nothing but the size of the result.
pub proof fn law_readable_is_rewritten(
    plan: Plan,
    b: Seq<u8>,
    level: Level,
    pos: int,
    end: int,
    idx: int,
)
    requires
        masks_known(plan),
        read_through(plan.verdicts, b, level, pos, end, idx) is Some,
    ensures
        match rewritten(plan, b, level, pos, end, idx) {
            Ok((r, n)) => Some(n) == read_through(plan.verdicts, b, level, pos, end, idx),
            Err(e) => e is TooLarge,
        },
    decreases rank(level), end - pos,
{
    if pos < end {
        let f = wire::field_at(b, pos, end)->Ok_0;
        wire::lemma_field_bounds(b, pos, end);
        let known = |r: Redaction| r.mask.0 < plan.masks.len();
        lemma_every_applied(plan, idx, f.lo, f.next, known);
        let spans = applied_spans(plan, idx, f.lo, f.next);
        lemma_spliced_known(b, plan.masks, spans, f.lo, f.next);
        if f.wire == 2 && child_of(level, f.num) is Some {
            let child = child_of(level, f.num)->Some_0;
            if child == Level::Record && envelope::verdict_at(plan.verdicts, idx)
                == SampleVerdict::Drop {
                law_readable_is_rewritten(plan, b, level, f.next, end, idx + 1);
            } else {
                law_readable_is_rewritten(plan, b, child, f.lo, f.next, idx);
                let n = read_through(plan.verdicts, b, child, f.lo, f.next, idx)->Some_0;
                law_readable_is_rewritten(
                    plan,
                    b,
                    level,
                    f.next,
                    end,
                    if child == Level::Record {
                        idx + 1
                    } else {
                        n
                    },
                );
            }
        } else {
            law_readable_is_rewritten(plan, b, level, f.next, end, idx);
        }
    }
}

/// What is rewritten can be read through.
pub proof fn lemma_rewritten_is_readable(
    plan: Plan,
    b: Seq<u8>,
    level: Level,
    pos: int,
    end: int,
    idx: int,
)
    ensures
        rewritten(plan, b, level, pos, end, idx) matches Ok((r, n)) ==> read_through(
            plan.verdicts,
            b,
            level,
            pos,
            end,
            idx,
        ) == Some(n),
    decreases rank(level), end - pos,
{
    if pos < end && wire::field_at(b, pos, end) is Ok {
        let f = wire::field_at(b, pos, end)->Ok_0;
        wire::lemma_field_bounds(b, pos, end);
        if f.wire == 2 && child_of(level, f.num) is Some {
            let child = child_of(level, f.num)->Some_0;
            if child == Level::Record && envelope::verdict_at(plan.verdicts, idx)
                == SampleVerdict::Drop {
                lemma_rewritten_is_readable(plan, b, level, f.next, end, idx + 1);
            } else {
                lemma_rewritten_is_readable(plan, b, child, f.lo, f.next, idx);
                if let Ok((_, n)) = rewritten(plan, b, child, f.lo, f.next, idx) {
                    lemma_rewritten_is_readable(
                        plan,
                        b,
                        level,
                        f.next,
                        end,
                        if child == Level::Record {
                            idx + 1
                        } else {
                            n
                        },
                    );
                }
            }
        } else {
            lemma_rewritten_is_readable(plan, b, level, f.next, end, idx);
        }
    }
}

/// Whether spans stand in the order of their starts.
spec fn by_start(spans: Seq<Redaction>) -> bool {
    forall|i: int, j: int|
        0 <= i <= j < spans.len() ==> (#[trigger] spans[i]).target.start <= (
        #[trigger] spans[j]).target.start
}

proof fn lemma_inserted_by_start(spans: Seq<Redaction>, x: Redaction)
    requires
        by_start(spans),
    ensures
        by_start(inserted(spans, x)),
        inserted(spans, x).contains(x),
        forall|y: Redaction| spans.contains(y) ==> #[trigger] inserted(spans, x).contains(y),
    decreases spans.len(),
{
    let all = inserted(spans, x);
    if spans.len() > 0 && comes_before(x, spans.last()) {
        let front = inserted(spans.drop_last(), x);
        lemma_inserted_by_start(spans.drop_last(), x);
        assert forall|y: Redaction| spans.contains(y) || y == x implies #[trigger] all.contains(
            y,
        ) by {
            if y == spans.last() {
                assert(all[all.len() - 1] == y);
            } else {
                if y != x {
                    let i = choose|i: int| 0 <= i < spans.len() && spans[i] == y;
                    assert(spans.drop_last()[i] == y);
                    assert(spans.drop_last().contains(y));
                }
                assert(front.contains(y));
                let i = choose|i: int| 0 <= i < front.len() && front[i] == y;
                assert(all[i] == y);
            }
        }
        let top = spans.last().target.start;
        let below = |r: Redaction| r.target.start <= top;
        assert forall|i: int| 0 <= i < spans.drop_last().len() implies below(
            #[trigger] spans.drop_last()[i],
        ) by {
            assert(spans[i].target.start <= spans[spans.len() - 1].target.start);
        }
        lemma_every_inserted(spans.drop_last(), x, below);
        assert forall|i: int, j: int| 0 <= i <= j < all.len() implies (
        #[trigger] all[i]).target.start <= (#[trigger] all[j]).target.start by {
            if j < front.len() {
                assert(front[i].target.start <= front[j].target.start);
            } else if i < front.len() {
                assert(below(front[i]));
            }
        }
    } else {
        assert forall|y: Redaction| spans.contains(y) || y == x implies #[trigger] all.contains(
            y,
        ) by {
            if y == x {
                assert(all[all.len() - 1] == y);
            } else {
                let i = choose|i: int| 0 <= i < spans.len() && spans[i] == y;
                assert(all[i] == y);
            }
        }
    }
}

proof fn lemma_ordered_by_start(spans: Seq<Redaction>)
    ensures
        by_start(ordered(spans)),
        forall|y: Redaction| spans.contains(y) ==> #[trigger] ordered(spans).contains(y),
    decreases spans.len(),
{
    if spans.len() > 0 {
        lemma_ordered_by_start(spans.drop_last());
        lemma_inserted_by_start(ordered(spans.drop_last()), spans.last());
        assert forall|y: Redaction| spans.contains(y) implies #[trigger] ordered(spans).contains(
            y,
        ) by {
            let i = choose|i: int| 0 <= i < spans.len() && spans[i] == y;
            if i < spans.len() - 1 {
                assert(spans.drop_last()[i] == y);
                assert(spans.drop_last().contains(y));
            }
        }
    }
}

/// Whether a span is among others, or starts inside one of them.
pub open spec fn covered(r: Redaction, taken: Seq<Redaction>) -> bool {
    exists|k: int|
        0 <= k < taken.len() && ((#[trigger] taken[k]) == r || taken[k].target.start
            <= r.target.start < taken[k].target.end)
}

proof fn lemma_without_overlaps_covers(spans: Seq<Redaction>, cursor: int, i: int)
    requires
        by_start(spans),
        0 <= i < spans.len(),
    ensures
        spans[i].target.start < cursor || covered(spans[i], without_overlaps(spans, cursor)),
    decreases spans.len(),
{
    let rest = spans.drop_first();
    let taken = without_overlaps(spans, cursor);
    let r = spans[i];
    if spans[0].target.start < cursor {
        if i > 0 {
            lemma_without_overlaps_covers(rest, cursor, i - 1);
        }
    } else {
        assert(taken[0] == spans[0]);
        let end = spans[0].target.end as int;
        if i > 0 {
            lemma_without_overlaps_covers(rest, end, i - 1);
            let later = without_overlaps(rest, end);
            if r.target.start >= end {
                let k = choose|k: int|
                    0 <= k < later.len() && ((#[trigger] later[k]) == r || later[k].target.start
                        <= r.target.start < later[k].target.end);
                assert(taken[k + 1] == later[k]);
            }
        }
    }
}

/// Every span that is asked for in a string is masked from its start on: it
/// is applied, or it starts inside one that is.
pub proof fn law_every_span_is_masked(plan: Plan, idx: int, lo: int, hi: int, r: Redaction)
    requires
        in_window(envelope::spans_of_record(plan.entries, idx), lo, hi).contains(r),
    ensures
        covered(r, applied_spans(plan, idx, lo, hi)),
{
    broadcast use vstd::seq_lib::group_filter_ensures;

    let spans = in_window(envelope::spans_of_record(plan.entries, idx), lo, hi);
    lemma_ordered_by_start(spans);
    assert(ordered(spans).contains(r));
    let i = choose|i: int| 0 <= i < ordered(spans).len() && ordered(spans)[i] == r;
    let j = choose|j: int| 0 <= j < spans.len() && spans[j] == r;
    assert(r.target.start >= lo);
    lemma_without_overlaps_covers(ordered(spans), lo, i);
}

/// An entry of a record is among its spans.
proof fn lemma_entry_is_a_span(entries: Seq<StageRedaction>, idx: int, i: int)
    requires
        0 <= i < entries.len(),
        entries[i].record == idx,
    ensures
        envelope::spans_of_record(entries, idx).contains(entries[i].redaction),
{
    broadcast use vstd::seq_lib::group_filter_ensures;

    let own = |e: StageRedaction| e.record == idx;
    let kept = entries.filter(own);
    assert(own(entries[i]));
    assert(kept.contains(entries[i]));
    let k = choose|k: int| 0 <= k < kept.len() && kept[k] == entries[i];
    assert(envelope::spans_of_record(entries, idx)[k] == entries[i].redaction);
}

/// Every span that is asked for is masked, whatever its length: where an entry
/// of record `idx` lies in the string from `lo` to `hi`, its span is applied,
/// or it starts inside one that is.
pub proof fn law_every_entry_is_masked(plan: Plan, idx: int, lo: int, hi: int, i: int)
    requires
        0 <= i < plan.entries.len(),
        plan.entries[i].record == idx,
        lo <= plan.entries[i].redaction.target.start,
        plan.entries[i].redaction.target.end <= hi,
    ensures
        exists|k: int|
            {
                let r = plan.entries[i].redaction;
                let taken = applied_spans(plan, idx, lo, hi);
                &&& 0 <= k < taken.len()
                &&& (#[trigger] applied_spans(plan, idx, lo, hi)[k]) == r || taken[k].target.start
                    <= r.target.start < taken[k].target.end
            },
{
    broadcast use vstd::seq_lib::group_filter_ensures;

    let r = plan.entries[i].redaction;
    let spans = envelope::spans_of_record(plan.entries, idx);
    let within = |r: Redaction| r.target.start >= lo && r.target.end <= hi;
    lemma_entry_is_a_span(plan.entries, idx, i);
    assert(within(r));
    assert(spans.filter(within).contains(r));
    law_every_span_is_masked(plan, idx, lo, hi, r);
    let taken = applied_spans(plan, idx, lo, hi);
    let k = choose|k: int|
        0 <= k < taken.len() && ((#[trigger] taken[k]) == r || taken[k].target.start
            <= r.target.start < taken[k].target.end);
    assert(applied_spans(plan, idx, lo, hi)[k] == taken[k]);
}

proof fn lemma_without_overlaps_are_among(spans: Seq<Redaction>, cursor: int, k: int)
    requires
        0 <= k < without_overlaps(spans, cursor).len(),
    ensures
        spans.contains(without_overlaps(spans, cursor)[k]),
        without_overlaps(spans, cursor)[k].target.start >= (if k == 0 {
            cursor
        } else {
            without_overlaps(spans, cursor)[k - 1].target.end as int
        }),
    decreases spans.len(),
{
    let rest = spans.drop_first();
    let taken = without_overlaps(spans, cursor);
    if spans[0].target.start < cursor {
        lemma_without_overlaps_are_among(rest, cursor, k);
        let n = choose|n: int| 0 <= n < rest.len() && rest[n] == taken[k];
        assert(spans[n + 1] == taken[k]);
    } else if k == 0 {
        assert(taken[0] == spans[0]);
    } else {
        let end = spans[0].target.end as int;
        let later = without_overlaps(rest, end);
        assert(taken[k] == later[k - 1]);
        lemma_without_overlaps_are_among(rest, end, k - 1);
        let n = choose|n: int| 0 <= n < rest.len() && rest[n] == taken[k];
        assert(spans[n + 1] == taken[k]);
        assert(taken[k - 1] == (if k == 1 {
            spans[0]
        } else {
            later[k - 2]
        }));
    }
}

proof fn lemma_ordered_are_among(spans: Seq<Redaction>, r: Redaction)
    requires
        ordered(spans).contains(r),
    ensures
        spans.contains(r),
    decreases spans.len(),
{
    let among = |x: Redaction| spans.contains(x);
    assert forall|i: int| 0 <= i < spans.len() implies among(#[trigger] spans[i]) by {
        assert(spans.contains(spans[i]));
    }
    lemma_every_ordered(spans, among);
    let k = choose|k: int| 0 <= k < ordered(spans).len() && ordered(spans)[k] == r;
    assert(among(ordered(spans)[k]));
}

/// Nothing else is masked: every applied span is the span of an entry of the
/// record that lies in the string. No applied span starts before the one in
/// front of it ends, nor before the string does.
pub proof fn law_only_entries_are_applied(plan: Plan, idx: int, lo: int, hi: int, k: int)
    requires
        0 <= k < applied_spans(plan, idx, lo, hi).len(),
    ensures
        exists|i: int|
            {
                &&& 0 <= i < plan.entries.len()
                &&& (#[trigger] plan.entries[i]).record == idx
                &&& plan.entries[i].redaction == applied_spans(plan, idx, lo, hi)[k]
            },
        lo <= applied_spans(plan, idx, lo, hi)[k].target.start,
        applied_spans(plan, idx, lo, hi)[k].target.end <= hi,
        k > 0 ==> applied_spans(plan, idx, lo, hi)[k - 1].target.end <= applied_spans(
            plan,
            idx,
            lo,
            hi,
        )[k].target.start,
{
    broadcast use vstd::seq_lib::group_filter_ensures;

    let spans = envelope::spans_of_record(plan.entries, idx);
    let within = |r: Redaction| r.target.start >= lo && r.target.end <= hi;
    let inside = spans.filter(within);
    let r = applied_spans(plan, idx, lo, hi)[k];
    lemma_without_overlaps_are_among(ordered(inside), lo, k);
    lemma_ordered_are_among(inside, r);
    let n = choose|n: int| 0 <= n < inside.len() && inside[n] == r;
    assert(within(inside[n]));
    assert(inside.contains(r));
    spans.lemma_filter_contains_rev(within, r);
    let own = |e: StageRedaction| e.record == idx;
    let kept = plan.entries.filter(own);
    let m = choose|m: int| 0 <= m < spans.len() && spans[m] == r;
    assert(kept[m].redaction == r);
    assert(own(kept[m]));
    assert(kept.contains(kept[m]));
    plan.entries.lemma_filter_contains_rev(own, kept[m]);
    let i = choose|i: int| 0 <= i < plan.entries.len() && plan.entries[i] == kept[m];
    assert(plan.entries[i].record == idx);
}

/// The first of several spans with given bounds.
spec fn first_of(spans: Seq<Redaction>, start: usize, end: usize) -> Option<Redaction>
    decreases spans.len(),
{
    if spans.len() == 0 {
        None
    } else if spans[0].target.start == start && spans[0].target.end == end {
        Some(spans[0])
    } else {
        first_of(spans.drop_first(), start, end)
    }
}

proof fn lemma_first_push(spans: Seq<Redaction>, x: Redaction, start: usize, end: usize)
    ensures
        first_of(spans.push(x), start, end) == (match first_of(spans, start, end) {
            Some(r) => Some(r),
            None => if x.target.start == start && x.target.end == end {
                Some(x)
            } else {
                None
            },
        }),
    decreases spans.len(),
{
    reveal_with_fuel(first_of, 2);
    if spans.len() == 0 {
        assert(spans.push(x).drop_first() =~= Seq::empty());
    } else {
        assert(spans.push(x).drop_first() =~= spans.drop_first().push(x));
        lemma_first_push(spans.drop_first(), x, start, end);
    }
}

proof fn lemma_first_inserted(spans: Seq<Redaction>, x: Redaction, start: usize, end: usize)
    ensures
        first_of(inserted(spans, x), start, end) == first_of(spans.push(x), start, end),
    decreases spans.len(),
{
    if spans.len() > 0 && comes_before(x, spans.last()) {
        let front = spans.drop_last();
        lemma_first_inserted(front, x, start, end);
        lemma_first_push(inserted(front, x), spans.last(), start, end);
        lemma_first_push(front, x, start, end);
        lemma_first_push(front, spans.last(), start, end);
        assert(front.push(spans.last()) =~= spans);
        lemma_first_push(spans, x, start, end);
    }
}

proof fn lemma_first_ordered(spans: Seq<Redaction>, start: usize, end: usize)
    ensures
        first_of(ordered(spans), start, end) == first_of(spans, start, end),
    decreases spans.len(),
{
    if spans.len() > 0 {
        let front = spans.drop_last();
        lemma_first_ordered(front, start, end);
        lemma_first_inserted(ordered(front), spans.last(), start, end);
        lemma_first_push(ordered(front), spans.last(), start, end);
        lemma_first_push(front, spans.last(), start, end);
        assert(front.push(spans.last()) =~= spans);
    }
}

proof fn lemma_first_in_window(spans: Seq<Redaction>, lo: int, hi: int, start: usize, end: usize)
    requires
        lo <= start,
        end <= hi,
    ensures
        first_of(in_window(spans, lo, hi), start, end) == first_of(spans, start, end),
    decreases spans.len(),
{
    reveal(Seq::filter);
    if spans.len() > 0 {
        let front = spans.drop_last();
        lemma_first_in_window(front, lo, hi, start, end);
        lemma_first_push(in_window(front, lo, hi), spans.last(), start, end);
        lemma_first_push(front, spans.last(), start, end);
        assert(front.push(spans.last()) =~= spans);
    } else {
        assert(in_window(spans, lo, hi) =~= spans);
    }
}

proof fn lemma_first_entry(
    entries: Seq<StageRedaction>,
    idx: int,
    start: usize,
    end: usize,
    n: int,
)
    requires
        0 <= n <= entries.len(),
    ensures
        match first_of(envelope::spans_of_record(entries.take(n), idx), start, end) {
            Some(r) => exists|i: int|
                {
                    &&& 0 <= i < n
                    &&& (#[trigger] entries[i]).record == idx
                    &&& entries[i].redaction == r
                    &&& r.target.start == start
                    &&& r.target.end == end
                    &&& forall|j: int|
                        0 <= j < i ==> !((#[trigger] entries[j]).record == idx
                            && entries[j].redaction.target.start == start
                            && entries[j].redaction.target.end == end)
                },
            None => forall|j: int|
                0 <= j < n ==> !((#[trigger] entries[j]).record == idx
                    && entries[j].redaction.target.start == start
                    && entries[j].redaction.target.end == end),
        },
    decreases n,
{
    reveal(Seq::filter);
    let own = |e: StageRedaction| e.record == idx;
    let bare = |e: StageRedaction| e.redaction;
    if n > 0 {
        lemma_first_entry(entries, idx, start, end, n - 1);
        let part = entries.take(n);
        assert(part.drop_last() =~= entries.take(n - 1));
        let front = envelope::spans_of_record(entries.take(n - 1), idx);
        let last = entries[n - 1];
        if own(last) {
            assert(part.filter(own).map_values(bare) =~= front.push(last.redaction));
            lemma_first_push(front, last.redaction, start, end);
            if first_of(front, start, end) is None && last.redaction.target.start == start
                && last.redaction.target.end == end {
                assert(entries[n - 1].record == idx);
            }
        } else {
            assert(envelope::spans_of_record(part, idx) =~= front);
        }
    } else {
        assert(envelope::spans_of_record(entries.take(0), idx) =~= Seq::empty());
    }
}

proof fn lemma_taken_is_first(spans: Seq<Redaction>, cursor: int, k: int)
    requires
        forall|i: int|
            0 <= i < spans.len() ==> (#[trigger] spans[i]).target.start <= spans[i].target.end,
        0 <= k < without_overlaps(spans, cursor).len(),
        ({
            let r = without_overlaps(spans, cursor)[k];
            r.target.start < r.target.end
        }),
    ensures
        without_overlaps(spans, cursor)[k].target.start >= cursor,
        ({
            let r = without_overlaps(spans, cursor)[k];
            first_of(spans, r.target.start, r.target.end) == Some(r)
        }),
    decreases spans.len(),
{
    let rest = spans.drop_first();
    let taken = without_overlaps(spans, cursor);
    let r = taken[k];
    assert forall|i: int| 0 <= i < rest.len() implies (#[trigger] rest[i]).target.start
        <= rest[i].target.end by {
        assert(rest[i] == spans[i + 1]);
    }
    assert(spans[0].target.start <= spans[0].target.end);
    if spans[0].target.start < cursor {
        lemma_taken_is_first(rest, cursor, k);
    } else if k == 0 {
        assert(r == spans[0]);
    } else {
        let end = spans[0].target.end as int;
        assert(r == without_overlaps(rest, end)[k - 1]);
        lemma_taken_is_first(rest, end, k - 1);
    }
}

/// Where two entries ask for the same bytes, the mask of the first is applied:
/// an applied span is the first entry of its record that has these bounds.
pub proof fn law_the_first_to_ask_wins(plan: Plan, idx: int, lo: int, hi: int, k: int)
    requires
        forall|i: int|
            0 <= i < plan.entries.len() ==> (#[trigger] plan.entries[i]).redaction.target.start
                <= plan.entries[i].redaction.target.end,
        0 <= k < applied_spans(plan, idx, lo, hi).len(),
        applied_spans(plan, idx, lo, hi)[k].target.start < applied_spans(
            plan,
            idx,
            lo,
            hi,
        )[k].target.end,
    ensures
        exists|i: int|
            {
                let r = applied_spans(plan, idx, lo, hi)[k];
                &&& 0 <= i < plan.entries.len()
                &&& (#[trigger] plan.entries[i]).record == idx
                &&& plan.entries[i].redaction == r
                &&& forall|j: int|
                    0 <= j < i ==> !((#[trigger] plan.entries[j]).record == idx
                        && plan.entries[j].redaction.target.start == r.target.start
                        && plan.entries[j].redaction.target.end == r.target.end)
            },
{
    let r = applied_spans(plan, idx, lo, hi)[k];
    let spans = envelope::spans_of_record(plan.entries, idx);
    let inside = in_window(spans, lo, hi);
    let (start, end) = (r.target.start, r.target.end);
    let sane = |r: Redaction| r.target.start <= r.target.end;
    law_only_entries_are_applied(plan, idx, lo, hi, k);
    assert(every(inside, sane)) by {
        broadcast use vstd::seq_lib::group_filter_ensures;

        let own = |e: StageRedaction| e.record == idx;
        let kept = plan.entries.filter(own);
        let within = |r: Redaction| r.target.start >= lo && r.target.end <= hi;
        assert forall|n: int| 0 <= n < inside.len() implies sane(#[trigger] inside[n]) by {
            assert(inside.contains(inside[n]));
            spans.lemma_filter_contains_rev(within, inside[n]);
            let m = choose|m: int| 0 <= m < spans.len() && spans[m] == inside[n];
            assert(kept.contains(kept[m]));
            plan.entries.lemma_filter_contains_rev(own, kept[m]);
            let i = choose|i: int| 0 <= i < plan.entries.len() && plan.entries[i] == kept[m];
            assert(plan.entries[i].redaction.target.start <= plan.entries[i].redaction.target.end);
        }
    }
    lemma_every_ordered(inside, sane);
    assert forall|i: int| 0 <= i < ordered(inside).len() implies (
    #[trigger] ordered(inside)[i]).target.start <= ordered(inside)[i].target.end by {
        assert(sane(ordered(inside)[i]));
    }
    lemma_taken_is_first(ordered(inside), lo, k);
    lemma_first_ordered(inside, start, end);
    lemma_first_in_window(spans, lo, hi, start, end);
    lemma_first_entry(plan.entries, idx, start, end, plan.entries.len() as int);
    assert(plan.entries.take(plan.entries.len() as int) =~= plan.entries);
}

/// Whether no span comes before one in front of it.
spec fn sorted(spans: Seq<Redaction>) -> bool {
    forall|i: int, j: int|
        0 <= i < j < spans.len() ==> !comes_before(#[trigger] spans[j], #[trigger] spans[i])
}

proof fn lemma_inserted_sorted(spans: Seq<Redaction>, x: Redaction)
    requires
        sorted(spans),
    ensures
        sorted(inserted(spans, x)),
    decreases spans.len(),
{
    let all = inserted(spans, x);
    if spans.len() > 0 && comes_before(x, spans.last()) {
        let front = spans.drop_last();
        let last = spans.last();
        assert(sorted(front)) by {
            assert forall|i: int, j: int| 0 <= i < j < front.len() implies !comes_before(
                #[trigger] front[j],
                #[trigger] front[i],
            ) by {
                assert(front[j] == spans[j] && front[i] == spans[i]);
            }
        }
        lemma_inserted_sorted(front, x);
        let behind = |r: Redaction| !comes_before(last, r);
        assert forall|i: int| 0 <= i < front.len() implies behind(#[trigger] front[i]) by {
            assert(front[i] == spans[i]);
            assert(!comes_before(spans[spans.len() - 1], spans[i]));
        }
        lemma_every_inserted(front, x, behind);
        assert forall|i: int, j: int| 0 <= i < j < all.len() implies !comes_before(
            #[trigger] all[j],
            #[trigger] all[i],
        ) by {
            if j == all.len() - 1 {
                assert(behind(inserted(front, x)[i]));
            } else {
                assert(all[j] == inserted(front, x)[j] && all[i] == inserted(front, x)[i]);
            }
        }
    } else {
        assert forall|i: int, j: int| 0 <= i < j < all.len() implies !comes_before(
            #[trigger] all[j],
            #[trigger] all[i],
        ) by {
            if j == spans.len() {
                if i < spans.len() - 1 {
                    assert(!comes_before(spans[spans.len() - 1], spans[i]));
                }
            } else {
                assert(all[j] == spans[j] && all[i] == spans[i]);
            }
        }
    }
}

proof fn lemma_ordered_sorted(spans: Seq<Redaction>)
    ensures
        sorted(ordered(spans)),
    decreases spans.len(),
{
    if spans.len() > 0 {
        lemma_ordered_sorted(spans.drop_last());
        lemma_inserted_sorted(ordered(spans.drop_last()), spans.last());
    }
}

proof fn lemma_no_shorter_is_passed_over(spans: Seq<Redaction>, cursor: int, k: int, n: int)
    requires
        sorted(spans),
        forall|i: int|
            0 <= i < spans.len() ==> (#[trigger] spans[i]).target.start <= spans[i].target.end,
        0 <= k < without_overlaps(spans, cursor).len(),
        0 <= n < spans.len(),
        spans[n].target.start < spans[n].target.end,
        ({
            let t = without_overlaps(spans, cursor)[k];
            t.target.start < t.target.end && t.target.start == spans[n].target.start
        }),
    ensures
        without_overlaps(spans, cursor)[k].target.end <= spans[n].target.end,
    decreases spans.len(),
{
    let rest = spans.drop_first();
    let t = without_overlaps(spans, cursor)[k];
    lemma_taken_is_first(spans, cursor, k);
    assert forall|i: int, j: int| 0 <= i < j < rest.len() implies !comes_before(
        #[trigger] rest[j],
        #[trigger] rest[i],
    ) by {
        assert(rest[j] == spans[j + 1] && rest[i] == spans[i + 1]);
    }
    assert forall|i: int| 0 <= i < rest.len() implies (#[trigger] rest[i]).target.start
        <= rest[i].target.end by {
        assert(rest[i] == spans[i + 1]);
    }
    if spans[0].target.start < cursor {
        if n > 0 {
            lemma_no_shorter_is_passed_over(rest, cursor, k, n - 1);
        }
    } else if k == 0 {
        assert(t == spans[0]);
        if n > 0 {
            assert(!comes_before(spans[n], spans[0]));
        }
    } else {
        let end = spans[0].target.end as int;
        assert(t == without_overlaps(rest, end)[k - 1]);
        lemma_taken_is_first(rest, end, k - 1);
        if n > 0 {
            lemma_no_shorter_is_passed_over(rest, end, k - 1, n - 1);
        }
    }
}

/// Of spans that start together the shortest is applied: no entry of the
/// record that starts where an applied span does is shorter than it.
pub proof fn law_the_shortest_wins(plan: Plan, idx: int, lo: int, hi: int, k: int, i: int)
    requires
        forall|i: int|
            0 <= i < plan.entries.len() ==> (#[trigger] plan.entries[i]).redaction.target.start
                <= plan.entries[i].redaction.target.end,
        0 <= k < applied_spans(plan, idx, lo, hi).len(),
        0 <= i < plan.entries.len(),
        plan.entries[i].record == idx,
        lo <= plan.entries[i].redaction.target.start < plan.entries[i].redaction.target.end <= hi,
        ({
            let t = applied_spans(plan, idx, lo, hi)[k];
            t.target.start < t.target.end && t.target.start
                == plan.entries[i].redaction.target.start
        }),
    ensures
        applied_spans(plan, idx, lo, hi)[k].target.end <= plan.entries[i].redaction.target.end,
{
    broadcast use vstd::seq_lib::group_filter_ensures;

    let r = plan.entries[i].redaction;
    let spans = envelope::spans_of_record(plan.entries, idx);
    let inside = in_window(spans, lo, hi);
    let within = |r: Redaction| r.target.start >= lo && r.target.end <= hi;
    let sane = |r: Redaction| r.target.start <= r.target.end;
    let own = |e: StageRedaction| e.record == idx;
    let kept = plan.entries.filter(own);
    assert forall|n: int| 0 <= n < inside.len() implies sane(#[trigger] inside[n]) by {
        assert(inside.contains(inside[n]));
        spans.lemma_filter_contains_rev(within, inside[n]);
        let m = choose|m: int| 0 <= m < spans.len() && spans[m] == inside[n];
        assert(kept.contains(kept[m]));
        plan.entries.lemma_filter_contains_rev(own, kept[m]);
        let i = choose|i: int| 0 <= i < plan.entries.len() && plan.entries[i] == kept[m];
        assert(plan.entries[i].redaction.target.start <= plan.entries[i].redaction.target.end);
    }
    lemma_every_ordered(inside, sane);
    assert forall|i: int| 0 <= i < ordered(inside).len() implies (
    #[trigger] ordered(inside)[i]).target.start <= ordered(inside)[i].target.end by {
        assert(sane(ordered(inside)[i]));
    }
    lemma_ordered_sorted(inside);
    lemma_entry_is_a_span(plan.entries, idx, i);
    assert(within(r));
    assert(inside.contains(r));
    lemma_ordered_by_start(inside);
    assert(ordered(inside).contains(r));
    let n = choose|n: int| 0 <= n < ordered(inside).len() && ordered(inside)[n] == r;
    lemma_no_shorter_is_passed_over(ordered(inside), lo, k, n);
}

/// A string without spans stays as it is. One more span, behind the others,
/// puts its mask in place of its bytes, and leaves what stands before and
/// behind it.
pub proof fn law_a_span_becomes_its_mask(
    b: Seq<u8>,
    masks: Seq<Seq<u8>>,
    spans: Seq<Redaction>,
    r: Redaction,
    lo: int,
    hi: int,
)
    requires
        0 <= lo <= hi <= b.len(),
        r.mask.0 < masks.len(),
        r.target.end <= hi,
        spliced(b, masks, spans, lo, r.target.start as int) is Ok,
        spans.len() == 0 ==> lo <= r.target.start,
        spans.len() > 0 ==> spans.last().target.end <= r.target.start,
    ensures
        spliced(b, masks, Seq::empty(), lo, hi) == Ok::<Seq<u8>, AssembleError>(
            b.subrange(lo, hi),
        ),
        spliced(b, masks, spans.push(r), lo, hi) == Ok::<Seq<u8>, AssembleError>(
            spliced(b, masks, spans, lo, r.target.start as int)->Ok_0 + masks[r.mask.0 as int]
                + between(b, r.target.end as int, hi),
        ),
        0 <= r.target.end <= hi ==> between(b, r.target.end as int, hi) =~= b.subrange(
            r.target.end as int,
            hi,
        ),
    decreases spans.len(),
{
    reveal_with_fuel(spliced, 2);
    let all = spans.push(r);
    assert(between(b, lo, hi) =~= b.subrange(lo, hi));
    if spans.len() == 0 {
        assert(all.drop_first() =~= Seq::empty());
    } else {
        assert(all.drop_first() =~= spans.drop_first().push(r));
        let from = spans[0].target.end as int;
        lemma_splice_push(b, masks, spans.drop_first(), r, from, hi);
        let head = between(b, lo, spans[0].target.start as int) + masks[spans[0].mask.0 as int];
        let mid = spliced(b, masks, spans.drop_first(), from, r.target.start as int)->Ok_0;
        let end = masks[r.mask.0 as int] + between(b, r.target.end as int, hi);
        assert(head + ((mid + masks[r.mask.0 as int]) + between(b, r.target.end as int, hi)) =~= ((
        head + mid) + masks[r.mask.0 as int]) + between(b, r.target.end as int, hi));
    }
}

proof fn lemma_splice_push(
    b: Seq<u8>,
    masks: Seq<Seq<u8>>,
    spans: Seq<Redaction>,
    r: Redaction,
    cursor: int,
    hi: int,
)
    requires
        r.mask.0 < masks.len(),
        spliced(b, masks, spans, cursor, r.target.start as int) is Ok,
    ensures
        spliced(b, masks, spans.push(r), cursor, hi) == Ok::<Seq<u8>, AssembleError>(
            spliced(b, masks, spans, cursor, r.target.start as int)->Ok_0 + masks[r.mask.0 as int]
                + between(b, r.target.end as int, hi),
        ),
    decreases spans.len(),
{
    reveal_with_fuel(spliced, 2);
    let all = spans.push(r);
    if spans.len() == 0 {
        assert(all.drop_first() =~= Seq::empty());
    } else {
        assert(all.drop_first() =~= spans.drop_first().push(r));
        let from = spans[0].target.end as int;
        lemma_splice_push(b, masks, spans.drop_first(), r, from, hi);
        let head = between(b, cursor, spans[0].target.start as int) + masks[spans[0].mask.0 as int];
        let mid = spliced(b, masks, spans.drop_first(), from, r.target.start as int)->Ok_0;
        assert(head + ((mid + masks[r.mask.0 as int]) + between(b, r.target.end as int, hi)) =~= ((
        head + mid) + masks[r.mask.0 as int]) + between(b, r.target.end as int, hi));
    }
}

/// Where a record has exactly one entry in a string, that entry is applied,
/// and nothing else.
pub proof fn law_one_entry_is_applied_alone(plan: Plan, idx: int, lo: int, hi: int, i: int)
    requires
        0 <= i < plan.entries.len(),
        plan.entries[i].record == idx,
        lo <= plan.entries[i].redaction.target.start,
        plan.entries[i].redaction.target.start < plan.entries[i].redaction.target.end,
        plan.entries[i].redaction.target.end <= hi,
        forall|j: int|
            #![trigger plan.entries[j]]
            0 <= j < plan.entries.len() && j != i && plan.entries[j].record == idx ==> !(lo
                <= plan.entries[j].redaction.target.start && plan.entries[j].redaction.target.end
                <= hi),
    ensures
        applied_spans(plan, idx, lo, hi) == seq![plan.entries[i].redaction],
{
    let taken = applied_spans(plan, idx, lo, hi);
    let r = plan.entries[i].redaction;
    law_every_entry_is_masked(plan, idx, lo, hi, i);
    assert forall|k: int| 0 <= k < taken.len() implies taken[k] == r by {
        law_only_entries_are_applied(plan, idx, lo, hi, k);
    }
    if taken.len() > 1 {
        law_only_entries_are_applied(plan, idx, lo, hi, 1);
        assert(taken[0] == r && taken[1] == r);
    }
    assert(taken =~= seq![r]);
}

/// Where no entry of a record lies in a string, nothing is applied to it.
pub proof fn law_no_entry_no_mask(plan: Plan, idx: int, lo: int, hi: int)
    requires
        forall|j: int|
            #![trigger plan.entries[j]]
            0 <= j < plan.entries.len() && plan.entries[j].record == idx ==> !(lo
                <= plan.entries[j].redaction.target.start && plan.entries[j].redaction.target.end
                <= hi),
    ensures
        applied_spans(plan, idx, lo, hi).len() == 0,
{
    if applied_spans(plan, idx, lo, hi).len() > 0 {
        law_only_entries_are_applied(plan, idx, lo, hi, 0);
    }
}

/// Where nothing changed, the bytes are the ones that were there.
pub proof fn law_unchanged_is_verbatim(
    plan: Plan,
    b: Seq<u8>,
    level: Level,
    pos: int,
    end: int,
    idx: int,
)
    requires
        0 <= pos <= end <= b.len(),
    ensures
        rewritten(plan, b, level, pos, end, idx) matches Ok((r, n)) ==> !r.changed ==> r.out
            == b.subrange(pos, end),
    decreases end - pos,
{
    if pos < end {
        if let Ok(f) = wire::field_at(b, pos, end) {
            wire::lemma_field_bounds(b, pos, end);
            law_unchanged_is_verbatim(plan, b, level, f.next, end, idx);
            if let Some(child) = child_of(level, f.num) {
                if let Ok((inner, n)) = rewritten(plan, b, child, f.lo, f.next, idx) {
                    law_unchanged_is_verbatim(
                        plan,
                        b,
                        level,
                        f.next,
                        end,
                        if child == Level::Record {
                            idx + 1
                        } else {
                            n
                        },
                    );
                }
            }
            assert(b.subrange(pos, f.next) + b.subrange(f.next, end) =~= b.subrange(pos, end));
        }
    } else {
        assert(b.subrange(pos, end) =~= Seq::<u8>::empty());
    }
}

fn build_request(buf: &[u8], env: &Envelope, masks: &MaskTable, rec_idx: &mut usize) -> (r: Result<
    Vec<Seg>,
    AssembleError,
>)
    requires
        *old(rec_idx) == 0,
        spans_fit(env.decisions.entries(), buf@.len()),
    ensures
        match rewritten(plan_of(*env, *masks), buf@, Level::Request, 0, buf@.len() as int, 0) {
            Err(e) => r == Err::<Vec<Seg>, AssembleError>(e),
            Ok((w, n)) => r matches Ok(segs) && segs_ok(buf@, masks@, segs@) && segs_bytes(
                buf@,
                masks@,
                segs@,
            ) == w.out && *final(rec_idx) == n,
        },
{
    // The request itself has no length prefix: its window is the buffer.
    let whole = 0..buf.len();
    match build_container(buf, whole, env, masks, rec_idx, Level::Request) {
        Err(e) => Err(e),
        Ok(Child::Rebuilt(segs)) => Ok(segs),
        Ok(Child::Unchanged) => {
            let mut segs: Vec<Seg> = Vec::new();
            proof {
                law_unchanged_is_verbatim(
                    plan_of(*env, *masks),
                    buf@,
                    Level::Request,
                    0,
                    buf@.len() as int,
                    0,
                );
                assert(segs_bytes(buf@, masks@, segs@) + buf@.subrange(0, buf@.len() as int)
                    =~= buf@.subrange(0, buf@.len() as int));
            }
            push_run(&mut segs, 0, buf.len(), buf, masks);
            Ok(segs)
        },
    }
}

// ---------------------------------------------------------------------------
// Emission.

struct Assembler<'a> {
    raw: &'a Bytes,
    chunks: Vec<Bytes>,
    scratch: BytesMut,
    len: usize,
}

impl<'a> Assembler<'a> {
    /// Everything emitted so far.
    spec fn so_far(self) -> Seq<u8> {
        flat(self.chunks@) + buffer::draft(self.scratch)
    }

    spec fn wf(self) -> bool {
        self.len == self.so_far().len()
    }

    fn new(raw: &'a Bytes) -> (a: Self)
        ensures
            a.wf(),
            a.raw == raw,
            a.so_far() == Seq::<u8>::empty(),
    {
        let a = Self { raw, chunks: Vec::new(), scratch: BytesMut::new(), len: 0 };
        assert(a.so_far() =~= Seq::<u8>::empty());
        a
    }

    fn flush_scratch(&mut self)
        ensures
            final(self).so_far() == old(self).so_far(),
            buffer::draft(final(self).scratch).len() == 0,
            final(self).len == old(self).len,
            final(self).raw == old(self).raw,
    {
        if !self.scratch.is_empty() {
            let frozen = self.scratch.split().freeze();
            proof {
                lemma_flat_push(self.chunks@, frozen);
            }
            self.chunks.push(frozen);
            assert(self.so_far() =~= old(self).so_far());
        }
    }

    /// Payload content: a handle on the request, never a copy.
    fn push_raw(&mut self, start: usize, end: usize)
        requires
            old(self).wf(),
            start <= end <= buffer::content(*old(self).raw).len(),
            old(self).so_far().len() + (end - start) <= usize::MAX,
        ensures
            final(self).wf(),
            final(self).raw == old(self).raw,
            final(self).so_far() == old(self).so_far() + buffer::content(
                *old(self).raw,
            ).subrange(start as int, end as int),
    {
        if start == end {
            assert(self.so_far() + buffer::content(*self.raw).subrange(start as int, end as int)
                =~= self.so_far());
            return;
        }
        self.len = self.len + (end - start);
        self.flush_scratch();
        let chunk = buffer::slice(self.raw, start, end);
        proof {
            lemma_flat_push(self.chunks@, chunk);
        }
        self.chunks.push(chunk);
        assert(self.so_far() =~= old(self).so_far() + buffer::content(chunk));
    }

    /// Structural bytes: tags and new length prefixes, gathered.
    fn push_header(&mut self, field: u32, size: usize)
        requires
            old(self).wf(),
            old(self).so_far().len() + header(field as nat, size as nat).len() <= usize::MAX,
        ensures
            final(self).wf(),
            final(self).raw == old(self).raw,
            final(self).so_far() == old(self).so_far() + header(field as nat, size as nat),
    {
        put_varint(field as u64 * 8 + 2, &mut self.scratch);
        put_varint(size as u64, &mut self.scratch);
        self.len = self.len + header_len(field, size);
        assert(self.so_far() =~= old(self).so_far() + header(field as nat, size as nat));
    }

    fn push_mask(&mut self, mask: &Bytes)
        requires
            old(self).wf(),
            old(self).so_far().len() + buffer::content(*mask).len() <= usize::MAX,
        ensures
            final(self).wf(),
            final(self).raw == old(self).raw,
            final(self).so_far() == old(self).so_far() + buffer::content(*mask),
    {
        self.len = self.len + mask.len();
        self.flush_scratch();
        let chunk = mask.clone();
        proof {
            lemma_flat_push(self.chunks@, chunk);
        }
        self.chunks.push(chunk);
        assert(self.so_far() =~= old(self).so_far() + buffer::content(chunk));
    }

    fn finish(self) -> (p: AssembledPayload)
        requires
            self.wf(),
        ensures
            p@ == self.so_far(),
    {
        let mut sink = self;
        sink.flush_scratch();
        assert(flat(sink.chunks@) =~= sink.so_far());
        AssembledPayload { chunks: sink.chunks, len: sink.len }
    }
}

fn emit_parts(sink: &mut Assembler, parts: &Vec<Part>, masks: &MaskTable)
    requires
        old(sink).wf(),
        forall|i: int|
            0 <= i < parts@.len() ==> part_ok(
                buffer::content(*old(sink).raw),
                masks@,
                #[trigger] parts@[i],
            ),
        old(sink).so_far().len() + parts_bytes(
            buffer::content(*old(sink).raw),
            masks@,
            parts@,
        ).len() <= usize::MAX,
    ensures
        final(sink).wf(),
        final(sink).raw == old(sink).raw,
        final(sink).so_far() == old(sink).so_far() + parts_bytes(
            buffer::content(*old(sink).raw),
            masks@,
            parts@,
        ),
{
    let ghost b = buffer::content(*sink.raw);
    let ghost base = sink.so_far();
    let mut i: usize = 0;
    proof {
        assert(base + parts_bytes(b, masks@, parts@.take(0)) =~= base);
        assert(parts@.take(parts@.len() as int) =~= parts@);
    }
    while i < parts.len()
        invariant
            i <= parts@.len(),
            b == buffer::content(*sink.raw),
            sink.raw == old(sink).raw,
            sink.wf(),
            forall|i: int| 0 <= i < parts@.len() ==> part_ok(b, masks@, #[trigger] parts@[i]),
            base.len() + parts_bytes(b, masks@, parts@).len() <= usize::MAX,
            sink.so_far() == base + parts_bytes(b, masks@, parts@.take(i as int)),
        decreases parts@.len() - i,
    {
        proof {
            let head = parts@.take(i as int);
            lemma_parts_push(b, masks@, head, parts@[i as int]);
            assert(parts@.take(i + 1) =~= head.push(parts@[i as int]));
            lemma_parts_prefix(b, masks@, parts@, i + 1);
            assert((base + parts_bytes(b, masks@, head)) + part_bytes(b, masks@, parts@[i as int])
                =~= base + parts_bytes(b, masks@, parts@.take(i + 1)));
        }
        match &parts[i] {
            Part::Raw(r) => sink.push_raw(r.start, r.end),
            Part::Mask(m) => {
                if let Some(mask) = masks.bytes(*m) {
                    sink.push_mask(mask);
                }
            },
        }
        i = i + 1;
    }
    assert(parts@.take(i as int) =~= parts@);
}

proof fn lemma_parts_prefix(b: Seq<u8>, masks: Seq<Seq<u8>>, parts: Seq<Part>, n: int)
    requires
        0 <= n <= parts.len(),
    ensures
        parts_bytes(b, masks, parts.take(n)).len() <= parts_bytes(b, masks, parts).len(),
    decreases parts.len() - n,
{
    if n < parts.len() {
        lemma_parts_prefix(b, masks, parts, n + 1);
        lemma_parts_push(b, masks, parts.take(n), parts[n]);
        assert(parts.take(n + 1) =~= parts.take(n).push(parts[n]));
    } else {
        assert(parts.take(n) =~= parts);
    }
}

proof fn lemma_segs_prefix(b: Seq<u8>, masks: Seq<Seq<u8>>, segs: Seq<Seg>, n: int)
    requires
        0 <= n <= segs.len(),
    ensures
        segs_bytes(b, masks, segs.take(n)).len() <= segs_bytes(b, masks, segs).len(),
    decreases segs.len() - n,
{
    if n < segs.len() {
        lemma_segs_prefix(b, masks, segs, n + 1);
        lemma_segs_push(b, masks, segs.take(n), segs[n]);
        assert(segs.take(n + 1) =~= segs.take(n).push(segs[n]));
    } else {
        assert(segs.take(n) =~= segs);
    }
}

fn emit_segs(sink: &mut Assembler, segs: &Vec<Seg>, masks: &MaskTable)
    requires
        old(sink).wf(),
        segs_ok(buffer::content(*old(sink).raw), masks@, segs@),
        old(sink).so_far().len() + segs_bytes(
            buffer::content(*old(sink).raw),
            masks@,
            segs@,
        ).len() <= usize::MAX,
    ensures
        final(sink).wf(),
        final(sink).raw == old(sink).raw,
        final(sink).so_far() == old(sink).so_far() + segs_bytes(
            buffer::content(*old(sink).raw),
            masks@,
            segs@,
        ),
    decreases segs,
{
    let ghost b = buffer::content(*sink.raw);
    let ghost base = sink.so_far();
    let mut i: usize = 0;
    proof {
        assert(base + segs_bytes(b, masks@, segs@.take(0)) =~= base);
        assert(segs@.take(segs@.len() as int) =~= segs@);
        lemma_segs_ok_take(b, masks@, segs@, segs@.len() as int);
    }
    while i < segs.len()
        invariant
            i <= segs@.len(),
            b == buffer::content(*sink.raw),
            sink.raw == old(sink).raw,
            sink.wf(),
            forall|i: int| 0 <= i < segs@.len() ==> seg_ok(b, masks@, #[trigger] segs@[i]),
            base.len() + segs_bytes(b, masks@, segs@).len() <= usize::MAX,
            sink.so_far() == base + segs_bytes(b, masks@, segs@.take(i as int)),
        decreases segs@.len() - i,
    {
        let ghost head = segs@.take(i as int);
        let ghost now = sink.so_far();
        proof {
            lemma_segs_push(b, masks@, head, segs@[i as int]);
            assert(segs@.take(i + 1) =~= head.push(segs@[i as int]));
            lemma_segs_prefix(b, masks@, segs@, i + 1);
            assert(now + seg_bytes(b, masks@, segs@[i as int]) =~= base + segs_bytes(
                b,
                masks@,
                segs@.take(i + 1),
            ));
        }
        match &segs[i] {
            Seg::Verbatim(r) => sink.push_raw(r.start, r.end),
            Seg::Nested { field, size, segs: inner } => {
                sink.push_header(*field, *size);
                emit_segs(sink, inner, masks);
                assert(sink.so_far() =~= now + seg_bytes(b, masks@, segs@[i as int]));
            },
            Seg::Scalar { field, size, parts } => {
                sink.push_header(*field, *size);
                emit_parts(sink, parts, masks);
                assert(sink.so_far() =~= now + seg_bytes(b, masks@, segs@[i as int]));
            },
        }
        i = i + 1;
    }
    assert(segs@.take(i as int) =~= segs@);
}

/// Assembles the governed request. With no drops and no spans the output is
/// the request itself, as one shared chunk.
pub fn assemble(env: &Envelope, masks: &MaskTable) -> (r: Result<AssembledPayload, AssembleError>)
    requires
        spans_fit(env.decisions.entries(), buffer::content(env.raw).len()),
    ensures
        match assembled(plan_of(*env, *masks), buffer::content(env.raw), env.records@.len()) {
            Ok(out) => r matches Ok(p) && p@ == out,
            Err(e) => r matches Err(f) && f == e,
        },
        untouched(plan_of(*env, *masks)) ==> (r matches Ok(p) && p.pieces().len() == 1
            && buffer::content(p.pieces()[0]) == buffer::content(env.raw)),
{
    if !env.decisions.any_dropped() && env.decisions.redaction_total() == 0 {
        return Ok(AssembledPayload::passthrough(env.raw.clone()));
    }
    let buf = buffer::as_slice(&env.raw);
    let mut rec_idx: usize = 0;
    let segs = match build_request(buf, env, masks, &mut rec_idx) {
        Ok(segs) => segs,
        Err(e) => {
            return Err(e);
        },
    };
    let parsed: usize = env.records.len();
    if rec_idx != parsed {
        return Err(AssembleError::RecordCountMismatch { parsed, walked: rec_idx });
    }
    if segs_encoded_len(&segs, buf, masks).is_none() {
        return Err(AssembleError::TooLarge);
    }
    let mut sink = Assembler::new(&env.raw);
    emit_segs(&mut sink, &segs, masks);
    proof {
        let out = segs_bytes(buf@, masks@, segs@);
        assert(Seq::<u8>::empty() + out =~= out);
    }
    Ok(sink.finish())
}

} // verus!
