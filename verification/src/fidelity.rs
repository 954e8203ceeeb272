//! What an assembled request says when it is read again.
//!
//! The walk that assembles a request and the walk that parses one agree: the
//! output parses, it holds exactly the records that were kept, in their order,
//! and each says what it said before, with its body and attribute values
//! masked where spans apply to them.

use crate::envelope;
use crate::envelope::{RecordModel, SampleVerdict};
use crate::export;
use crate::export::{Level, Plan};
use crate::otlp;
use crate::otlp::ResourceModel;
use crate::wire;
use vstd::prelude::*;

verus! {

/// Whether a buffer holds a byte string at an offset.
pub open spec fn holds(c: Seq<u8>, q: int, s: Seq<u8>) -> bool {
    0 <= q && q + s.len() <= c.len() && c.subrange(q, q + s.len()) == s
}

/// The parts of a byte string are held one after another.
pub proof fn lemma_holds_parts(c: Seq<u8>, q: int, x: Seq<u8>, y: Seq<u8>)
    requires
        holds(c, q, x + y),
    ensures
        holds(c, q, x),
        holds(c, q + x.len(), y),
{
    let whole = c.subrange(q, q + (x + y).len());
    assert(c.subrange(q, q + x.len()) =~= whole.subrange(0, x.len() as int));
    assert((x + y).subrange(0, x.len() as int) =~= x);
    assert(c.subrange(q + x.len(), q + x.len() + y.len()) =~= whole.subrange(
        x.len() as int,
        (x + y).len() as int,
    ));
    assert((x + y).subrange(x.len() as int, (x + y).len() as int) =~= y);
}

/// A part of what is held is held where it stands.
pub proof fn lemma_holds_sub(c: Seq<u8>, q: int, b: Seq<u8>, pos: int, end: int, lo: int, hi: int)
    requires
        0 <= pos <= lo <= hi <= end <= b.len(),
        holds(c, q, b.subrange(pos, end)),
    ensures
        holds(c, q + (lo - pos), b.subrange(lo, hi)),
{
    let s = b.subrange(pos, end);
    let whole = c.subrange(q, q + s.len());
    assert(c.subrange(q + (lo - pos), q + (hi - pos)) =~= whole.subrange(lo - pos, hi - pos));
    assert(s.subrange(lo - pos, hi - pos) =~= b.subrange(lo, hi));
}

/// A base-128 number does not depend on where its digits stand.
proof fn lemma_varint_num_moves(b: Seq<u8>, p: int, stop: int, c: Seq<u8>, q: int)
    requires
        0 <= p <= stop <= b.len(),
        holds(c, q, b.subrange(p, stop)),
    ensures
        wire::varint_num(c, q, q + (stop - p)) == wire::varint_num(b, p, stop),
    decreases stop - p,
{
    if p < stop {
        assert(c[q] == c.subrange(q, q + (stop - p))[0]);
        assert(b[p] == b.subrange(p, stop)[0]);
        lemma_holds_sub(c, q, b, p, stop, p + 1, stop);
        lemma_varint_num_moves(b, p + 1, stop, c, q + 1);
    }
}

/// A varint reads the same wherever its bytes stand.
proof fn lemma_varint_moves(b: Seq<u8>, p: int, end: int, c: Seq<u8>, q: int, e: int)
    requires
        0 <= p,
        end <= b.len(),
        wire::varint_at(b, p, end) is Ok,
        ({
            let next = wire::varint_at(b, p, end)->Ok_0.1;
            holds(c, q, b.subrange(p, next)) && q + (next - p) <= e
        }),
    ensures
        ({
            let (v, next) = wire::varint_at(b, p, end)->Ok_0;
            wire::varint_at(c, q, e) == Ok::<(u64, int), wire::ParseError>((v, q + (next - p)))
        }),
{
    let (v, next) = wire::varint_at(b, p, end)->Ok_0;
    wire::lemma_varint_stop(b, p, end);
    let stop = q + (next - p);
    assert forall|i: int| q <= i < stop implies #[trigger] c[i] == b[p + (i - q)] by {
        assert(c[i] == c.subrange(q, stop)[i - q]);
        assert(b[p + (i - q)] == b.subrange(p, next)[i - q]);
    }
    assert(c[stop - 1] == b[next - 1]);
    assert forall|i: int| q <= i < stop - 1 implies #[trigger] c[i] >= 128 by {
        assert(b[p + (i - q)] >= 128);
    }
    wire::lemma_varint_stop_is(c, q, e, stop);
    lemma_varint_num_moves(b, p, next, c, q);
}

/// A field that stands elsewhere.
pub open spec fn moved(f: wire::Field, by: int) -> wire::Field {
    wire::Field { lo: f.lo + by, next: f.next + by, ..f }
}

/// A field reads the same wherever its bytes stand.
pub proof fn lemma_field_moves(b: Seq<u8>, p: int, end: int, c: Seq<u8>, q: int, e: int)
    requires
        0 <= p,
        end <= b.len(),
        wire::field_at(b, p, end) is Ok,
        ({
            let f = wire::field_at(b, p, end)->Ok_0;
            holds(c, q, b.subrange(p, f.next)) && q + (f.next - p) <= e
        }),
    ensures
        wire::field_at(c, q, e) == Ok::<wire::Field, wire::ParseError>(
            moved(wire::field_at(b, p, end)->Ok_0, q - p),
        ),
        ({
            let f = wire::field_at(b, p, end)->Ok_0;
            p < f.lo <= f.next <= end && holds(c, f.lo + (q - p), b.subrange(f.lo, f.next))
        }),
{
    let f = wire::field_at(b, p, end)->Ok_0;
    wire::lemma_field_bounds(b, p, end);
    lemma_holds_sub(c, q, b, p, f.next, f.lo, f.next);
    reveal(wire::field_at);
    wire::lemma_varint_stop(b, p, end);
    let (num, w, at) = wire::tag_at(b, p, end)->Ok_0;
    wire::lemma_varint_stop(b, at, end);
    assert(at <= f.next);
    lemma_holds_sub(c, q, b, p, f.next, p, at);
    lemma_varint_moves(b, p, end, c, q, e);
    let d = q - p;
    if w == 0 {
        lemma_holds_sub(c, q, b, p, f.next, at, f.next);
        lemma_varint_moves(b, at, end, c, at + d, e);
    } else if w == 2 {
        let (len, start) = wire::varint_at(b, at, end)->Ok_0;
        lemma_holds_sub(c, q, b, p, f.next, at, start);
        lemma_varint_moves(b, at, end, c, at + d, e);
    }
}

/// The digits of a written varint.
proof fn lemma_varint_bytes(v: nat)
    ensures
        export::varint_bytes(v).len() >= 1,
        export::varint_bytes(v)[export::varint_bytes(v).len() - 1] < 128,
        forall|i: int|
            0 <= i < export::varint_bytes(v).len() - 1 ==> #[trigger] export::varint_bytes(v)[i]
                >= 128,
        wire::varint_num(export::varint_bytes(v), 0, export::varint_bytes(v).len() as int) == v,
    decreases v,
{
    let s = export::varint_bytes(v);
    if v >= 128 {
        lemma_varint_bytes(v / 128);
        let rest = export::varint_bytes(v / 128);
        let first = (v % 128 + 128) as u8;
        assert(s == seq![first] + rest);
        assert(s[s.len() - 1] == rest[rest.len() - 1]);
        assert forall|i: int| 0 <= i < s.len() - 1 implies #[trigger] s[i] >= 128 by {
            if i > 0 {
                assert(s[i] == rest[i - 1]);
            }
        }
        assert(s.subrange(1, s.len() as int) =~= rest);
        assert(rest.subrange(0, rest.len() as int) =~= rest);
        lemma_varint_num_moves(rest, 0, rest.len() as int, s, 1);
    } else {
        assert(wire::varint_num(s, 1, 1) == 0);
    }
}

/// What a varint is written as reads back as it.
pub proof fn law_varints_round_trip(v: u64, c: Seq<u8>, q: int, e: int)
    requires
        holds(c, q, export::varint_bytes(v as nat)),
        q + export::varint_bytes(v as nat).len() <= e,
    ensures
        wire::varint_at(c, q, e) == Ok::<(u64, int), wire::ParseError>(
            (v, q + export::varint_bytes(v as nat).len()),
        ),
{
    let s = export::varint_bytes(v as nat);
    lemma_varint_bytes(v as nat);
    export::lemma_varint_bytes_u64(v);
    let stop = q + s.len();
    assert forall|i: int| q <= i < stop implies #[trigger] c[i] == s[i - q] by {
        assert(c[i] == c.subrange(q, stop)[i - q]);
    }
    wire::lemma_varint_stop_is(c, q, e, stop);
    assert(s.subrange(0, s.len() as int) =~= s);
    lemma_varint_num_moves(s, 0, s.len() as int, c, q);
}

/// A written header reads back as the field that it opens.
pub proof fn lemma_header(c: Seq<u8>, q: int, e: int, num: u32, size: nat)
    requires
        size <= usize::MAX,
        holds(c, q, export::header(num as nat, size)),
        q + export::header(num as nat, size).len() + size <= e,
    ensures
        ({
            let lo = q + export::header(num as nat, size).len();
            wire::field_at(c, q, e) == Ok::<wire::Field, wire::ParseError>(
                wire::Field { num, wire: 2, value: 0, lo, next: lo + size },
            )
        }),
{
    let tag = (num as nat * 8 + 2) as u64;
    let t = export::varint_bytes(tag as nat);
    let s = export::varint_bytes(size);
    lemma_holds_parts(c, q, t, s);
    law_varints_round_trip(tag, c, q, e);
    law_varints_round_trip(size as u64, c, q + t.len(), e);
    reveal(wire::field_at);
    assert((tag / 8) % 0x1_0000_0000 == num);
    assert(tag % 8 == 2);
}

// ---------------------------------------------------------------------------
// What a record says, before and after.

/// Whether two spans, each in its own buffer, hold the same bytes.
pub open spec fn same(b: Seq<u8>, x: (int, int), c: Seq<u8>, y: (int, int)) -> bool {
    &&& envelope::bytes_at(b, x) is Some
    &&& envelope::bytes_at(c, y) == envelope::bytes_at(b, x)
}

/// [`same`] of spans that may be absent, both or neither.
pub open spec fn same_opt(
    b: Seq<u8>,
    x: Option<(int, int)>,
    c: Seq<u8>,
    y: Option<(int, int)>,
) -> bool {
    match (x, y) {
        (Some(x), Some(y)) => same(b, x, c, y),
        (None, None) => true,
        _ => false,
    }
}

/// The string at a span of record `idx` with the spans that apply to it
/// replaced by their masks.
pub open spec fn masked(plan: Plan, b: Seq<u8>, idx: int, at: (int, int)) -> Seq<u8> {
    let spans = export::applied_spans(plan, idx, at.0, at.1);
    if spans.len() == 0 {
        b.subrange(at.0, at.1)
    } else {
        export::spliced(b, plan.masks, spans, at.0, at.1)->Ok_0
    }
}

/// Whether a span of the output holds what masking leaves of a string.
pub open spec fn masked_as(
    plan: Plan,
    b: Seq<u8>,
    idx: int,
    x: (int, int),
    c: Seq<u8>,
    y: (int, int),
) -> bool {
    &&& envelope::bytes_at(b, x) is Some
    &&& envelope::bytes_at(c, y) == Some(masked(plan, b, idx, x))
}

/// [`masked_as`] of spans that may be absent, both or neither.
pub open spec fn masked_opt(
    plan: Plan,
    b: Seq<u8>,
    idx: int,
    x: Option<(int, int)>,
    c: Seq<u8>,
    y: Option<(int, int)>,
) -> bool {
    match (x, y) {
        (Some(x), Some(y)) => masked_as(plan, b, idx, x, c, y),
        (None, None) => true,
        _ => false,
    }
}

/// Whether record `y` of the output is record `x`, number `idx` of the
/// request, after masking. A record without a string body has an empty view
/// for it, and has one again.
pub open spec fn same_record(
    plan: Plan,
    b: Seq<u8>,
    idx: int,
    x: RecordModel,
    c: Seq<u8>,
    y: RecordModel,
) -> bool {
    &&& x.severity_number == y.severity_number
    &&& same_opt(b, x.trace_id, c, y.trace_id)
    &&& same_opt(b, x.namespace, c, y.namespace)
    &&& same_opt(b, x.service_name, c, y.service_name)
    &&& masked_as(plan, b, idx, x.body, c, y.body) || (x.body.0 == x.body.1 && same(
        b,
        x.body,
        c,
        y.body,
    ))
    &&& x.attrs.len() == y.attrs.len()
    &&& forall|i: int|
        #![trigger x.attrs[i]]
        #![trigger y.attrs[i]]
        0 <= i < x.attrs.len() ==> same(b, x.attrs[i].0, c, y.attrs[i].0) && masked_as(
            plan,
            b,
            idx,
            x.attrs[i].1,
            c,
            y.attrs[i].1,
        )
}

/// Whether the records `ys` of the output are the records `xs` of the
/// request, the first of them number `idx`, without those that are dropped.
pub open spec fn same_records(
    plan: Plan,
    b: Seq<u8>,
    idx: int,
    xs: Seq<RecordModel>,
    c: Seq<u8>,
    ys: Seq<RecordModel>,
) -> bool
    decreases xs.len(),
{
    if xs.len() == 0 {
        ys.len() == 0
    } else if envelope::verdict_at(plan.verdicts, idx) == SampleVerdict::Drop {
        same_records(plan, b, idx + 1, xs.drop_first(), c, ys)
    } else {
        &&& ys.len() > 0
        &&& same_record(plan, b, idx, xs[0], c, ys[0])
        &&& same_records(plan, b, idx + 1, xs.drop_first(), c, ys.drop_first())
    }
}

/// Whether the views of a resource are the same before and after.
pub open spec fn same_resource(
    b: Seq<u8>,
    x: ResourceModel,
    c: Seq<u8>,
    y: ResourceModel,
) -> bool {
    same_opt(b, x.namespace, c, y.namespace) && same_opt(b, x.service_name, c, y.service_name)
}

// ---------------------------------------------------------------------------
// Fields, before and after.

/// A field that was kept reads as it did.
proof fn lemma_kept_field(b: Seq<u8>, pos: int, end: int, c: Seq<u8>, q: int, e: int)
    requires
        0 <= pos < end <= b.len(),
        wire::field_at(b, pos, end) is Ok,
        ({
            let f = wire::field_at(b, pos, end)->Ok_0;
            holds(c, q, b.subrange(pos, f.next)) && q + (f.next - pos) <= e
        }),
    ensures
        ({
            let f = wire::field_at(b, pos, end)->Ok_0;
            let g = moved(f, q - pos);
            &&& pos < f.lo <= f.next <= end
            &&& wire::field_at(c, q, e) == Ok::<wire::Field, wire::ParseError>(g)
            &&& holds(c, g.lo, b.subrange(f.lo, f.next))
            &&& same(b, (f.lo, f.next), c, (g.lo, g.next))
        }),
{
    lemma_field_moves(b, pos, end, c, q, e);
}

/// A message field, kept or under a new length prefix, holds what became of
/// its payload.
proof fn lemma_child_field(
    plan: Plan,
    b: Seq<u8>,
    child: Level,
    pos: int,
    end: int,
    idx: int,
    c: Seq<u8>,
    q: int,
    e: int,
) -> (g: wire::Field)
    requires
        0 <= pos < end <= b.len(),
        wire::field_at(b, pos, end) is Ok,
        ({
            let f = wire::field_at(b, pos, end)->Ok_0;
            &&& f.wire == 2
            &&& export::rewritten(plan, b, child, f.lo, f.next, idx) matches Ok((inner, n))
            &&& export::nested_rewrite(b, pos, f, inner) matches Ok(p)
            &&& holds(c, q, p.out)
            &&& q + p.out.len() <= e
        }),
    ensures
        ({
            let f = wire::field_at(b, pos, end)->Ok_0;
            let (inner, n) = export::rewritten(plan, b, child, f.lo, f.next, idx)->Ok_0;
            let p = export::nested_rewrite(b, pos, f, inner)->Ok_0;
            &&& pos < f.lo <= f.next <= end
            &&& wire::field_at(c, q, e) == Ok::<wire::Field, wire::ParseError>(g)
            &&& g.num == f.num
            &&& g.wire == 2
            &&& q <= g.lo
            &&& holds(c, g.lo, inner.out)
            &&& g.next == g.lo + inner.out.len()
            &&& g.next == q + p.out.len()
        }),
{
    let f = wire::field_at(b, pos, end)->Ok_0;
    wire::lemma_field_bounds(b, pos, end);
    let (inner, n) = export::rewritten(plan, b, child, f.lo, f.next, idx)->Ok_0;
    if inner.changed {
        let h = export::header(f.num as nat, inner.out.len());
        lemma_holds_parts(c, q, h, inner.out);
        lemma_header(c, q, e, f.num, inner.out.len());
        wire::Field {
            num: f.num,
            wire: 2,
            value: 0,
            lo: q + h.len(),
            next: q + h.len() + inner.out.len(),
        }
    } else {
        export::law_unchanged_is_verbatim(plan, b, child, f.lo, f.next, idx);
        lemma_kept_field(b, pos, end, c, q, e);
        moved(f, q - pos)
    }
}

/// A value reads back with its string masked.
proof fn lemma_value(plan: Plan, b: Seq<u8>, pos: int, end: int, idx: int, c: Seq<u8>, q: int)
    requires
        0 <= pos <= end <= b.len(),
        export::rewritten(plan, b, Level::AnyValue, pos, end, idx) matches Ok((r, n)) && holds(
            c,
            q,
            r.out,
        ),
    ensures
        ({
            let (r, n) = export::rewritten(plan, b, Level::AnyValue, pos, end, idx)->Ok_0;
            let x = otlp::any_string(b, pos, end);
            let y = otlp::any_string(c, q, q + r.out.len());
            n == idx && x is Ok && y is Ok && masked_opt(plan, b, idx, x->Ok_0, c, y->Ok_0)
        }),
    decreases end - pos,
{
    let (r, n) = export::rewritten(plan, b, Level::AnyValue, pos, end, idx)->Ok_0;
    let e = q + r.out.len();
    if pos < end {
        let f = wire::field_at(b, pos, end)->Ok_0;
        wire::lemma_field_bounds(b, pos, end);
        let (r2, n2) = export::rewritten(plan, b, Level::AnyValue, f.next, end, idx)->Ok_0;
        let first = if f.wire == 2 && f.num == 1 {
            export::string_rewrite(plan, b, idx, pos, f)->Ok_0
        } else {
            export::kept(b, pos, f.next)
        };
        assert(r.out == first.out + r2.out);
        lemma_holds_parts(c, q, first.out, r2.out);
        lemma_value(plan, b, f.next, end, idx, c, q + first.out.len());
        if first.changed {
            let spans = export::applied_spans(plan, idx, f.lo, f.next);
            let s = export::spliced(b, plan.masks, spans, f.lo, f.next)->Ok_0;
            let h = export::header(f.num as nat, s.len());
            lemma_holds_parts(c, q, h, s);
            lemma_header(c, q, e, f.num, s.len());
        } else {
            lemma_kept_field(b, pos, end, c, q, e);
        }
    }
}

/// Whether two attributes, or their absence, are the same after masking.
spec fn same_attr(
    plan: Plan,
    b: Seq<u8>,
    idx: int,
    x: Option<((int, int), (int, int))>,
    c: Seq<u8>,
    y: Option<((int, int), (int, int))>,
) -> bool {
    match (x, y) {
        (Some(x), Some(y)) => same(b, x.0, c, y.0) && masked_as(plan, b, idx, x.1, c, y.1),
        (None, None) => true,
        _ => false,
    }
}

/// An attribute reads back with its key as it was and its value masked.
proof fn lemma_attr(
    plan: Plan,
    b: Seq<u8>,
    pos: int,
    end: int,
    idx: int,
    key: Option<(int, int)>,
    value: Option<(int, int)>,
    c: Seq<u8>,
    q: int,
    key2: Option<(int, int)>,
    value2: Option<(int, int)>,
)
    requires
        0 <= pos <= end <= b.len(),
        export::rewritten(plan, b, Level::KeyValue, pos, end, idx) matches Ok((r, n)) && holds(
            c,
            q,
            r.out,
        ),
        same_opt(b, key, c, key2),
        masked_opt(plan, b, idx, value, c, value2),
    ensures
        ({
            let (r, n) = export::rewritten(plan, b, Level::KeyValue, pos, end, idx)->Ok_0;
            let x = otlp::key_value(b, pos, end, key, value);
            let y = otlp::key_value(c, q, q + r.out.len(), key2, value2);
            n == idx && x is Ok && y is Ok && same_attr(plan, b, idx, x->Ok_0, c, y->Ok_0)
        }),
    decreases end - pos,
{
    let (r, n) = export::rewritten(plan, b, Level::KeyValue, pos, end, idx)->Ok_0;
    let e = q + r.out.len();
    if pos < end {
        let f = wire::field_at(b, pos, end)->Ok_0;
        wire::lemma_field_bounds(b, pos, end);
        if f.wire == 2 && f.num == 2 {
            let (inner, k) = export::rewritten(plan, b, Level::AnyValue, f.lo, f.next, idx)->Ok_0;
            let first = export::nested_rewrite(b, pos, f, inner)->Ok_0;
            let (r2, n2) = export::rewritten(plan, b, Level::KeyValue, f.next, end, k)->Ok_0;
            assert(r.out == first.out + r2.out);
            lemma_holds_parts(c, q, first.out, r2.out);
            let g = lemma_child_field(plan, b, Level::AnyValue, pos, end, idx, c, q, e);
            lemma_value(plan, b, f.lo, f.next, idx, c, g.lo);
            let v = otlp::any_string(b, f.lo, f.next)->Ok_0;
            let v2 = otlp::any_string(c, g.lo, g.next)->Ok_0;
            lemma_attr(plan, b, f.next, end, idx, key, v, c, g.next, key2, v2);
        } else {
            let first = export::kept(b, pos, f.next);
            let (r2, n2) = export::rewritten(plan, b, Level::KeyValue, f.next, end, idx)->Ok_0;
            assert(r.out == first.out + r2.out);
            lemma_holds_parts(c, q, first.out, r2.out);
            lemma_kept_field(b, pos, end, c, q, e);
            let g = moved(f, q - pos);
            if f.wire == 2 && f.num == 1 {
                lemma_attr(
                    plan,
                    b,
                    f.next,
                    end,
                    idx,
                    Some((f.lo, f.next)),
                    value,
                    c,
                    g.next,
                    Some((g.lo, g.next)),
                    value2,
                );
            } else {
                lemma_attr(plan, b, f.next, end, idx, key, value, c, g.next, key2, value2);
            }
        }
    }
}

/// The fields of a record read back masked.
proof fn lemma_record(
    plan: Plan,
    b: Seq<u8>,
    pos: int,
    end: int,
    idx: int,
    acc: RecordModel,
    c: Seq<u8>,
    q: int,
    acc2: RecordModel,
)
    requires
        0 <= pos <= end <= b.len(),
        export::rewritten(plan, b, Level::Record, pos, end, idx) matches Ok((r, n)) && holds(
            c,
            q,
            r.out,
        ),
        same_record(plan, b, idx, acc, c, acc2),
    ensures
        ({
            let (r, n) = export::rewritten(plan, b, Level::Record, pos, end, idx)->Ok_0;
            let x = otlp::record_fields(b, pos, end, acc);
            let y = otlp::record_fields(c, q, q + r.out.len(), acc2);
            x is Ok && y is Ok && same_record(plan, b, idx, x->Ok_0, c, y->Ok_0)
        }),
    decreases end - pos,
{
    let (r, n) = export::rewritten(plan, b, Level::Record, pos, end, idx)->Ok_0;
    let e = q + r.out.len();
    if pos < end {
        let f = wire::field_at(b, pos, end)->Ok_0;
        wire::lemma_field_bounds(b, pos, end);
        if f.wire == 2 && f.num == 5 {
            let (inner, k) = export::rewritten(plan, b, Level::AnyValue, f.lo, f.next, idx)->Ok_0;
            let first = export::nested_rewrite(b, pos, f, inner)->Ok_0;
            let (r2, n2) = export::rewritten(plan, b, Level::Record, f.next, end, k)->Ok_0;
            assert(r.out == first.out + r2.out);
            lemma_holds_parts(c, q, first.out, r2.out);
            let g = lemma_child_field(plan, b, Level::AnyValue, pos, end, idx, c, q, e);
            lemma_value(plan, b, f.lo, f.next, idx, c, g.lo);
            let next = otlp::record_step(b, f, acc)->Ok_0;
            let next2 = otlp::record_step(c, g, acc2)->Ok_0;
            assert(same_record(plan, b, idx, next, c, next2));
            lemma_record(plan, b, f.next, end, idx, next, c, g.next, next2);
        } else if f.wire == 2 && f.num == 6 {
            let (inner, k) = export::rewritten(plan, b, Level::KeyValue, f.lo, f.next, idx)->Ok_0;
            let first = export::nested_rewrite(b, pos, f, inner)->Ok_0;
            let (r2, n2) = export::rewritten(plan, b, Level::Record, f.next, end, k)->Ok_0;
            assert(r.out == first.out + r2.out);
            lemma_holds_parts(c, q, first.out, r2.out);
            let g = lemma_child_field(plan, b, Level::KeyValue, pos, end, idx, c, q, e);
            lemma_attr(plan, b, f.lo, f.next, idx, None, None, c, g.lo, None, None);
            let next = otlp::record_step(b, f, acc)->Ok_0;
            let next2 = otlp::record_step(c, g, acc2)->Ok_0;
            assert(same_record(plan, b, idx, next, c, next2));
            lemma_record(plan, b, f.next, end, idx, next, c, g.next, next2);
        } else {
            let first = export::kept(b, pos, f.next);
            let (r2, n2) = export::rewritten(plan, b, Level::Record, f.next, end, idx)->Ok_0;
            assert(r.out == first.out + r2.out);
            lemma_holds_parts(c, q, first.out, r2.out);
            lemma_kept_field(b, pos, end, c, q, e);
            let g = moved(f, q - pos);
            let next = otlp::record_step(b, f, acc)->Ok_0;
            let next2 = otlp::record_step(c, g, acc2)->Ok_0;
            assert(same_record(plan, b, idx, next, c, next2));
            lemma_record(plan, b, f.next, end, idx, next, c, g.next, next2);
        }
    }
}

/// The records of a scope read back, without the dropped ones.
proof fn lemma_scope(
    plan: Plan,
    b: Seq<u8>,
    pos: int,
    end: int,
    idx: int,
    res: ResourceModel,
    c: Seq<u8>,
    q: int,
    res2: ResourceModel,
)
    requires
        0 <= pos <= end <= b.len(),
        export::rewritten(plan, b, Level::Scope, pos, end, idx) matches Ok((r, n)) && holds(
            c,
            q,
            r.out,
        ),
        otlp::scope_records(b, pos, end, res) is Ok,
        same_resource(b, res, c, res2),
    ensures
        ({
            let (r, n) = export::rewritten(plan, b, Level::Scope, pos, end, idx)->Ok_0;
            let xs = otlp::scope_records(b, pos, end, res)->Ok_0;
            let ys = otlp::scope_records(c, q, q + r.out.len(), res2);
            &&& n == idx + xs.len()
            &&& ys is Ok
            &&& same_records(plan, b, idx, xs, c, ys->Ok_0)
        }),
    decreases end - pos,
{
    let (r, n) = export::rewritten(plan, b, Level::Scope, pos, end, idx)->Ok_0;
    let e = q + r.out.len();
    let xs = otlp::scope_records(b, pos, end, res)->Ok_0;
    if pos < end {
        let f = wire::field_at(b, pos, end)->Ok_0;
        wire::lemma_field_bounds(b, pos, end);
        let rest = otlp::scope_records(b, f.next, end, res)->Ok_0;
        if f.wire == 2 && f.num == 2 {
            let x = otlp::record_at(b, f.lo, f.next, res)->Ok_0;
            assert(xs == seq![x] + rest);
            assert(xs.drop_first() =~= rest);
            if envelope::verdict_at(plan.verdicts, idx) == SampleVerdict::Drop {
                let (r2, n2) = export::rewritten(
                    plan,
                    b,
                    Level::Scope,
                    f.next,
                    end,
                    idx + 1,
                )->Ok_0;
                assert(r.out =~= r2.out);
                lemma_scope(plan, b, f.next, end, idx + 1, res, c, q, res2);
            } else {
                let (inner, k) = export::rewritten(
                    plan,
                    b,
                    Level::Record,
                    f.lo,
                    f.next,
                    idx,
                )->Ok_0;
                let first = export::nested_rewrite(b, pos, f, inner)->Ok_0;
                let (r2, n2) = export::rewritten(
                    plan,
                    b,
                    Level::Scope,
                    f.next,
                    end,
                    idx + 1,
                )->Ok_0;
                assert(r.out == first.out + r2.out);
                lemma_holds_parts(c, q, first.out, r2.out);
                let g = lemma_child_field(plan, b, Level::Record, pos, end, idx, c, q, e);
                let blank = otlp::blank_record(f.lo, res);
                let blank2 = otlp::blank_record(g.lo, res2);
                assert(b.subrange(f.lo, f.lo) =~= c.subrange(g.lo, g.lo));
                assert(same_record(plan, b, idx, blank, c, blank2));
                lemma_record(plan, b, f.lo, f.next, idx, blank, c, g.lo, blank2);
                lemma_scope(plan, b, f.next, end, idx + 1, res, c, g.next, res2);
                let y = otlp::record_at(c, g.lo, g.next, res2)->Ok_0;
                let rest2 = otlp::scope_records(c, g.next, e, res2)->Ok_0;
                assert((seq![y] + rest2).drop_first() =~= rest2);
            }
        } else {
            let first = export::kept(b, pos, f.next);
            let (r2, n2) = export::rewritten(plan, b, Level::Scope, f.next, end, idx)->Ok_0;
            assert(r.out == first.out + r2.out);
            lemma_holds_parts(c, q, first.out, r2.out);
            lemma_kept_field(b, pos, end, c, q, e);
            lemma_scope(plan, b, f.next, end, idx, res, c, q + (f.next - pos), res2);
        }
    }
}

/// A value that was kept reads as it did.
proof fn lemma_kept_value(b: Seq<u8>, pos: int, end: int, c: Seq<u8>, q: int)
    requires
        0 <= pos <= end <= b.len(),
        holds(c, q, b.subrange(pos, end)),
        otlp::any_string(b, pos, end) is Ok,
    ensures
        ({
            let x = otlp::any_string(b, pos, end)->Ok_0;
            let y = otlp::any_string(c, q, q + (end - pos));
            y is Ok && same_opt(b, x, c, y->Ok_0)
        }),
    decreases end - pos,
{
    if pos < end {
        let f = wire::field_at(b, pos, end)->Ok_0;
        wire::lemma_field_bounds(b, pos, end);
        lemma_holds_sub(c, q, b, pos, end, pos, f.next);
        lemma_holds_sub(c, q, b, pos, end, f.next, end);
        lemma_kept_field(b, pos, end, c, q, q + (end - pos));
        if !(f.num == 1 && f.wire == 2) {
            lemma_kept_value(b, f.next, end, c, q + (f.next - pos));
        }
    }
}

/// An attribute that was kept reads as it did.
proof fn lemma_kept_attr(
    b: Seq<u8>,
    pos: int,
    end: int,
    key: Option<(int, int)>,
    value: Option<(int, int)>,
    c: Seq<u8>,
    q: int,
    key2: Option<(int, int)>,
    value2: Option<(int, int)>,
)
    requires
        0 <= pos <= end <= b.len(),
        holds(c, q, b.subrange(pos, end)),
        otlp::key_value(b, pos, end, key, value) is Ok,
        same_opt(b, key, c, key2),
        same_opt(b, value, c, value2),
    ensures
        ({
            let x = otlp::key_value(b, pos, end, key, value)->Ok_0;
            let y = otlp::key_value(c, q, q + (end - pos), key2, value2);
            &&& y is Ok
            &&& match (x, y->Ok_0) {
                (Some(x), Some(y)) => same(b, x.0, c, y.0) && same(b, x.1, c, y.1),
                (None, None) => true,
                _ => false,
            }
        }),
    decreases end - pos,
{
    if pos < end {
        let f = wire::field_at(b, pos, end)->Ok_0;
        wire::lemma_field_bounds(b, pos, end);
        lemma_holds_sub(c, q, b, pos, end, pos, f.next);
        lemma_holds_sub(c, q, b, pos, end, f.next, end);
        lemma_kept_field(b, pos, end, c, q, q + (end - pos));
        let g = moved(f, q - pos);
        if f.num == 1 && f.wire == 2 {
            let at = Some((f.lo, f.next));
            let at2 = Some((g.lo, g.next));
            lemma_kept_attr(b, f.next, end, at, value, c, g.next, at2, value2);
        } else if f.num == 2 && f.wire == 2 {
            lemma_kept_value(b, f.lo, f.next, c, g.lo);
            let v = otlp::any_string(b, f.lo, f.next)->Ok_0;
            let v2 = otlp::any_string(c, g.lo, g.next)->Ok_0;
            lemma_kept_attr(b, f.next, end, key, v, c, g.next, key2, v2);
        } else {
            lemma_kept_attr(b, f.next, end, key, value, c, g.next, key2, value2);
        }
    }
}

/// A resource, which is always kept, reads as it did.
proof fn lemma_kept_resource(
    b: Seq<u8>,
    pos: int,
    end: int,
    acc: ResourceModel,
    c: Seq<u8>,
    q: int,
    acc2: ResourceModel,
)
    requires
        0 <= pos <= end <= b.len(),
        holds(c, q, b.subrange(pos, end)),
        otlp::resource_attrs(b, pos, end, acc) is Ok,
        same_resource(b, acc, c, acc2),
    ensures
        ({
            let x = otlp::resource_attrs(b, pos, end, acc)->Ok_0;
            let y = otlp::resource_attrs(c, q, q + (end - pos), acc2);
            y is Ok && same_resource(b, x, c, y->Ok_0)
        }),
    decreases end - pos,
{
    if pos < end {
        let f = wire::field_at(b, pos, end)->Ok_0;
        wire::lemma_field_bounds(b, pos, end);
        lemma_holds_sub(c, q, b, pos, end, pos, f.next);
        lemma_holds_sub(c, q, b, pos, end, f.next, end);
        lemma_kept_field(b, pos, end, c, q, q + (end - pos));
        let g = moved(f, q - pos);
        if f.num == 1 && f.wire == 2 {
            lemma_kept_attr(b, f.lo, f.next, None, None, c, g.lo, None, None);
            let a = otlp::key_value(b, f.lo, f.next, None, None)->Ok_0;
            let a2 = otlp::key_value(c, g.lo, g.next, None, None)->Ok_0;
            match (a, a2) {
                (Some(a), Some(a2)) => {
                    let next = otlp::resource_step(b, a, acc);
                    let next2 = otlp::resource_step(c, a2, acc2);
                    lemma_kept_resource(b, f.next, end, next, c, g.next, next2);
                },
                _ => {
                    lemma_kept_resource(b, f.next, end, acc, c, g.next, acc2);
                },
            }
        } else {
            lemma_kept_resource(b, f.next, end, acc, c, g.next, acc2);
        }
    }
}

/// Whether the windows `ys` of the output hold what became of the scopes
/// `xs`, from record `idx` to record `n`.
spec fn same_scopes(
    plan: Plan,
    b: Seq<u8>,
    idx: int,
    xs: Seq<(int, int)>,
    c: Seq<u8>,
    ys: Seq<(int, int)>,
    n: int,
) -> bool
    decreases xs.len(),
{
    if xs.len() == 0 {
        ys.len() == 0 && n == idx
    } else {
        &&& ys.len() > 0
        &&& 0 <= xs[0].0 <= xs[0].1 <= b.len()
        &&& export::rewritten(plan, b, Level::Scope, xs[0].0, xs[0].1, idx) matches Ok((r, k))
        &&& holds(c, ys[0].0, r.out)
        &&& ys[0].1 == ys[0].0 + r.out.len()
        &&& same_scopes(plan, b, k, xs.drop_first(), c, ys.drop_first(), n)
    }
}

/// One more scope.
proof fn lemma_same_scopes_push(
    plan: Plan,
    b: Seq<u8>,
    idx: int,
    xs: Seq<(int, int)>,
    c: Seq<u8>,
    ys: Seq<(int, int)>,
    n: int,
    x: (int, int),
    y: (int, int),
)
    requires
        same_scopes(plan, b, idx, xs, c, ys, n),
        0 <= x.0 <= x.1 <= b.len(),
        export::rewritten(plan, b, Level::Scope, x.0, x.1, n) matches Ok((r, k)) && holds(
            c,
            y.0,
            r.out,
        ) && y.1 == y.0 + r.out.len(),
    ensures
        same_scopes(
            plan,
            b,
            idx,
            xs.push(x),
            c,
            ys.push(y),
            export::rewritten(plan, b, Level::Scope, x.0, x.1, n)->Ok_0.1,
        ),
    decreases xs.len(),
{
    if xs.len() == 0 {
        assert(xs.push(x).drop_first() =~= xs);
        assert(ys.push(y).drop_first() =~= ys);
        let (r, k) = export::rewritten(plan, b, Level::Scope, x.0, x.1, n)->Ok_0;
        assert(same_scopes(plan, b, k, xs, c, ys, k));
    } else {
        let (r, k) = export::rewritten(plan, b, Level::Scope, xs[0].0, xs[0].1, idx)->Ok_0;
        lemma_same_scopes_push(plan, b, k, xs.drop_first(), c, ys.drop_first(), n, x, y);
        assert(xs.push(x).drop_first() =~= xs.drop_first().push(x));
        assert(ys.push(y).drop_first() =~= ys.drop_first().push(y));
    }
}

/// The records of one stretch and of the next, taken together.
proof fn lemma_same_records_join(
    plan: Plan,
    b: Seq<u8>,
    idx: int,
    xs: Seq<RecordModel>,
    xs2: Seq<RecordModel>,
    c: Seq<u8>,
    ys: Seq<RecordModel>,
    ys2: Seq<RecordModel>,
)
    requires
        same_records(plan, b, idx, xs, c, ys),
        same_records(plan, b, idx + xs.len(), xs2, c, ys2),
    ensures
        same_records(plan, b, idx, xs + xs2, c, ys + ys2),
    decreases xs.len(),
{
    if xs.len() == 0 {
        assert(xs + xs2 =~= xs2);
        assert(ys + ys2 =~= ys2);
    } else {
        assert((xs + xs2).drop_first() =~= xs.drop_first() + xs2);
        if envelope::verdict_at(plan.verdicts, idx) == SampleVerdict::Drop {
            lemma_same_records_join(plan, b, idx + 1, xs.drop_first(), xs2, c, ys, ys2);
        } else {
            assert((ys + ys2).drop_first() =~= ys.drop_first() + ys2);
            lemma_same_records_join(
                plan,
                b,
                idx + 1,
                xs.drop_first(),
                xs2,
                c,
                ys.drop_first(),
                ys2,
            );
        }
    }
}

/// The fields of a resource message read back.
proof fn lemma_resource_fields(
    plan: Plan,
    b: Seq<u8>,
    pos: int,
    end: int,
    start: int,
    idx: int,
    res: ResourceModel,
    scopes: Seq<(int, int)>,
    c: Seq<u8>,
    q: int,
    res2: ResourceModel,
    scopes2: Seq<(int, int)>,
)
    requires
        0 <= pos <= end <= b.len(),
        export::rewritten(plan, b, Level::Resource, pos, end, idx) matches Ok((r, n)) && holds(
            c,
            q,
            r.out,
        ),
        otlp::resource_fields(b, pos, end, res, scopes) is Ok,
        same_resource(b, res, c, res2),
        same_scopes(plan, b, start, scopes, c, scopes2, idx),
    ensures
        ({
            let (r, n) = export::rewritten(plan, b, Level::Resource, pos, end, idx)->Ok_0;
            let x = otlp::resource_fields(b, pos, end, res, scopes)->Ok_0;
            let y = otlp::resource_fields(c, q, q + r.out.len(), res2, scopes2);
            &&& y is Ok
            &&& same_resource(b, x.0, c, y->Ok_0.0)
            &&& same_scopes(plan, b, start, x.1, c, y->Ok_0.1, n)
        }),
    decreases end - pos,
{
    let (r, n) = export::rewritten(plan, b, Level::Resource, pos, end, idx)->Ok_0;
    let e = q + r.out.len();
    if pos < end {
        let f = wire::field_at(b, pos, end)->Ok_0;
        wire::lemma_field_bounds(b, pos, end);
        if f.wire == 2 && f.num == 2 {
            let (inner, k) = export::rewritten(plan, b, Level::Scope, f.lo, f.next, idx)->Ok_0;
            let first = export::nested_rewrite(b, pos, f, inner)->Ok_0;
            let (r2, n2) = export::rewritten(plan, b, Level::Resource, f.next, end, k)->Ok_0;
            assert(r.out == first.out + r2.out);
            lemma_holds_parts(c, q, first.out, r2.out);
            let g = lemma_child_field(plan, b, Level::Scope, pos, end, idx, c, q, e);
            let x = (f.lo, f.next);
            let y = (g.lo, g.next);
            lemma_same_scopes_push(plan, b, start, scopes, c, scopes2, idx, x, y);
            lemma_resource_fields(
                plan,
                b,
                f.next,
                end,
                start,
                k,
                res,
                scopes.push(x),
                c,
                g.next,
                res2,
                scopes2.push(y),
            );
        } else {
            let first = export::kept(b, pos, f.next);
            let (r2, n2) = export::rewritten(plan, b, Level::Resource, f.next, end, idx)->Ok_0;
            assert(r.out == first.out + r2.out);
            lemma_holds_parts(c, q, first.out, r2.out);
            lemma_kept_field(b, pos, end, c, q, e);
            let g = moved(f, q - pos);
            if f.wire == 2 && f.num == 1 {
                let none = otlp::no_resource();
                lemma_kept_resource(b, f.lo, f.next, none, c, g.lo, none);
                let m = otlp::resource_attrs(b, f.lo, f.next, none)->Ok_0;
                let m2 = otlp::resource_attrs(c, g.lo, g.next, none)->Ok_0;
                lemma_resource_fields(
                    plan,
                    b,
                    f.next,
                    end,
                    start,
                    idx,
                    m,
                    scopes,
                    c,
                    g.next,
                    m2,
                    scopes2,
                );
            } else {
                lemma_resource_fields(
                    plan,
                    b,
                    f.next,
                    end,
                    start,
                    idx,
                    res,
                    scopes,
                    c,
                    g.next,
                    res2,
                    scopes2,
                );
            }
        }
    }
}

/// The records of several scopes read back.
proof fn lemma_scopes(
    plan: Plan,
    b: Seq<u8>,
    idx: int,
    scopes: Seq<(int, int)>,
    res: ResourceModel,
    c: Seq<u8>,
    scopes2: Seq<(int, int)>,
    res2: ResourceModel,
    n: int,
)
    requires
        same_scopes(plan, b, idx, scopes, c, scopes2, n),
        same_resource(b, res, c, res2),
        otlp::scopes_records(b, scopes, res) is Ok,
    ensures
        ({
            let xs = otlp::scopes_records(b, scopes, res)->Ok_0;
            let ys = otlp::scopes_records(c, scopes2, res2);
            &&& n == idx + xs.len()
            &&& ys is Ok
            &&& same_records(plan, b, idx, xs, c, ys->Ok_0)
        }),
    decreases scopes.len(),
{
    if scopes.len() > 0 {
        let (lo, hi) = scopes[0];
        let (r, k) = export::rewritten(plan, b, Level::Scope, lo, hi, idx)->Ok_0;
        lemma_scope(plan, b, lo, hi, idx, res, c, scopes2[0].0, res2);
        let rest = scopes.drop_first();
        let rest2 = scopes2.drop_first();
        lemma_scopes(plan, b, k, rest, res, c, rest2, res2, n);
        lemma_same_records_join(
            plan,
            b,
            idx,
            otlp::scope_records(b, lo, hi, res)->Ok_0,
            otlp::scopes_records(b, rest, res)->Ok_0,
            c,
            otlp::scope_records(c, scopes2[0].0, scopes2[0].1, res2)->Ok_0,
            otlp::scopes_records(c, rest2, res2)->Ok_0,
        );
    }
}

/// The records of a request read back.
proof fn lemma_request(
    plan: Plan,
    b: Seq<u8>,
    pos: int,
    end: int,
    idx: int,
    c: Seq<u8>,
    q: int,
)
    requires
        0 <= pos <= end <= b.len(),
        export::rewritten(plan, b, Level::Request, pos, end, idx) matches Ok((r, n)) && holds(
            c,
            q,
            r.out,
        ),
        otlp::request_records(b, pos, end) is Ok,
    ensures
        ({
            let (r, n) = export::rewritten(plan, b, Level::Request, pos, end, idx)->Ok_0;
            let xs = otlp::request_records(b, pos, end)->Ok_0;
            let ys = otlp::request_records(c, q, q + r.out.len());
            &&& n == idx + xs.len()
            &&& ys is Ok
            &&& same_records(plan, b, idx, xs, c, ys->Ok_0)
        }),
    decreases end - pos,
{
    let (r, n) = export::rewritten(plan, b, Level::Request, pos, end, idx)->Ok_0;
    let e = q + r.out.len();
    if pos < end {
        let f = wire::field_at(b, pos, end)->Ok_0;
        wire::lemma_field_bounds(b, pos, end);
        if f.wire == 2 && f.num == 1 {
            let (inner, k) = export::rewritten(plan, b, Level::Resource, f.lo, f.next, idx)->Ok_0;
            let first = export::nested_rewrite(b, pos, f, inner)->Ok_0;
            let (r2, n2) = export::rewritten(plan, b, Level::Request, f.next, end, k)->Ok_0;
            assert(r.out == first.out + r2.out);
            lemma_holds_parts(c, q, first.out, r2.out);
            let g = lemma_child_field(plan, b, Level::Resource, pos, end, idx, c, q, e);
            let none = otlp::no_resource();
            let no_scope = Seq::<(int, int)>::empty();
            lemma_resource_fields(
                plan,
                b,
                f.lo,
                f.next,
                idx,
                idx,
                none,
                no_scope,
                c,
                g.lo,
                none,
                no_scope,
            );
            let x = otlp::resource_fields(b, f.lo, f.next, none, no_scope)->Ok_0;
            let y = otlp::resource_fields(c, g.lo, g.next, none, no_scope)->Ok_0;
            lemma_scopes(plan, b, idx, x.1, x.0, c, y.1, y.0, k);
            lemma_request(plan, b, f.next, end, k, c, g.next);
            lemma_same_records_join(
                plan,
                b,
                idx,
                otlp::resource_records(b, f.lo, f.next)->Ok_0,
                otlp::request_records(b, f.next, end)->Ok_0,
                c,
                otlp::resource_records(c, g.lo, g.next)->Ok_0,
                otlp::request_records(c, g.next, e)->Ok_0,
            );
        } else {
            let first = export::kept(b, pos, f.next);
            let (r2, n2) = export::rewritten(plan, b, Level::Request, f.next, end, idx)->Ok_0;
            assert(r.out == first.out + r2.out);
            lemma_holds_parts(c, q, first.out, r2.out);
            lemma_kept_field(b, pos, end, c, q, e);
            lemma_request(plan, b, f.next, end, idx, c, q + (f.next - pos));
        }
    }
}

/// The walk that rewrites a request meets exactly the records that parsing it
/// yields.
pub proof fn law_walk_meets_every_record(plan: Plan, b: Seq<u8>)
    requires
        otlp::parsed(b) is Ok,
    ensures
        export::rewritten(plan, b, Level::Request, 0, b.len() as int, 0) matches Ok((r, n)) ==> n
            == otlp::parsed(b)->Ok_0.len(),
{
    if let Ok((r, n)) = export::rewritten(plan, b, Level::Request, 0, b.len() as int, 0) {
        assert(r.out.subrange(0, r.out.len() as int) =~= r.out);
        lemma_request(plan, b, 0, b.len() as int, 0, r.out, 0);
    }
}

// ---------------------------------------------------------------------------
// Where the resource stands does not matter.

/// Whether two records, each in its own buffer, say the same.
pub open spec fn equal_record(b: Seq<u8>, x: RecordModel, c: Seq<u8>, y: RecordModel) -> bool {
    &&& x.severity_number == y.severity_number
    &&& same_opt(b, x.trace_id, c, y.trace_id)
    &&& same_opt(b, x.namespace, c, y.namespace)
    &&& same_opt(b, x.service_name, c, y.service_name)
    &&& same(b, x.body, c, y.body)
    &&& x.attrs.len() == y.attrs.len()
    &&& forall|i: int|
        #![trigger x.attrs[i]]
        #![trigger y.attrs[i]]
        0 <= i < x.attrs.len() ==> same(b, x.attrs[i].0, c, y.attrs[i].0) && same(
            b,
            x.attrs[i].1,
            c,
            y.attrs[i].1,
        )
}

/// Whether records, each list in its own buffer, say the same one by one.
pub open spec fn equal_records(
    b: Seq<u8>,
    xs: Seq<RecordModel>,
    c: Seq<u8>,
    ys: Seq<RecordModel>,
) -> bool {
    xs.len() == ys.len() && forall|i: int|
        #![trigger xs[i]]
        #![trigger ys[i]]
        0 <= i < xs.len() ==> equal_record(b, xs[i], c, ys[i])
}

/// The fields of a record that was kept read as they did.
proof fn lemma_kept_record(
    b: Seq<u8>,
    pos: int,
    end: int,
    acc: RecordModel,
    c: Seq<u8>,
    q: int,
    acc2: RecordModel,
)
    requires
        0 <= pos <= end <= b.len(),
        holds(c, q, b.subrange(pos, end)),
        otlp::record_fields(b, pos, end, acc) is Ok,
        equal_record(b, acc, c, acc2),
    ensures
        ({
            let x = otlp::record_fields(b, pos, end, acc)->Ok_0;
            let y = otlp::record_fields(c, q, q + (end - pos), acc2);
            y is Ok && equal_record(b, x, c, y->Ok_0)
        }),
    decreases end - pos,
{
    if pos < end {
        let f = wire::field_at(b, pos, end)->Ok_0;
        wire::lemma_field_bounds(b, pos, end);
        lemma_holds_sub(c, q, b, pos, end, pos, f.next);
        lemma_holds_sub(c, q, b, pos, end, f.next, end);
        lemma_kept_field(b, pos, end, c, q, q + (end - pos));
        let g = moved(f, q - pos);
        if f.num == 5 && f.wire == 2 {
            lemma_kept_value(b, f.lo, f.next, c, g.lo);
        } else if f.num == 6 && f.wire == 2 {
            lemma_kept_attr(b, f.lo, f.next, None, None, c, g.lo, None, None);
        }
        let next = otlp::record_step(b, f, acc)->Ok_0;
        let next2 = otlp::record_step(c, g, acc2)->Ok_0;
        assert(equal_record(b, next, c, next2));
        lemma_kept_record(b, f.next, end, next, c, g.next, next2);
    }
}

/// The records of a scope that was kept read as they did.
proof fn lemma_kept_scope(
    b: Seq<u8>,
    pos: int,
    end: int,
    res: ResourceModel,
    c: Seq<u8>,
    q: int,
    res2: ResourceModel,
)
    requires
        0 <= pos <= end <= b.len(),
        holds(c, q, b.subrange(pos, end)),
        otlp::scope_records(b, pos, end, res) is Ok,
        same_resource(b, res, c, res2),
    ensures
        ({
            let xs = otlp::scope_records(b, pos, end, res)->Ok_0;
            let ys = otlp::scope_records(c, q, q + (end - pos), res2);
            ys is Ok && equal_records(b, xs, c, ys->Ok_0)
        }),
    decreases end - pos,
{
    if pos < end {
        let f = wire::field_at(b, pos, end)->Ok_0;
        wire::lemma_field_bounds(b, pos, end);
        lemma_holds_sub(c, q, b, pos, end, pos, f.next);
        lemma_holds_sub(c, q, b, pos, end, f.next, end);
        lemma_kept_field(b, pos, end, c, q, q + (end - pos));
        let g = moved(f, q - pos);
        if f.num == 2 && f.wire == 2 {
            let blank = otlp::blank_record(f.lo, res);
            let blank2 = otlp::blank_record(g.lo, res2);
            assert(b.subrange(f.lo, f.lo) =~= c.subrange(g.lo, g.lo));
            lemma_kept_record(b, f.lo, f.next, blank, c, g.lo, blank2);
        }
        lemma_kept_scope(b, f.next, end, res, c, g.next, res2);
    }
}

/// The records of several scopes that were kept read as they did.
proof fn lemma_kept_scopes(
    b: Seq<u8>,
    scopes: Seq<(int, int)>,
    res: ResourceModel,
    c: Seq<u8>,
    scopes2: Seq<(int, int)>,
    res2: ResourceModel,
)
    requires
        scopes.len() == scopes2.len(),
        forall|i: int|
            0 <= i < scopes.len() ==> same(b, #[trigger] scopes[i], c, #[trigger] scopes2[i]),
        otlp::scopes_records(b, scopes, res) is Ok,
        same_resource(b, res, c, res2),
    ensures
        ({
            let xs = otlp::scopes_records(b, scopes, res)->Ok_0;
            let ys = otlp::scopes_records(c, scopes2, res2);
            ys is Ok && equal_records(b, xs, c, ys->Ok_0)
        }),
    decreases scopes.len(),
{
    if scopes.len() > 0 {
        assert(same(b, scopes[0], c, scopes2[0]));
        let s = b.subrange(scopes[0].0, scopes[0].1);
        let t = c.subrange(scopes2[0].0, scopes2[0].1);
        assert(s == t && s.len() == t.len());
        lemma_kept_scope(b, scopes[0].0, scopes[0].1, res, c, scopes2[0].0, res2);
        let rest = scopes.drop_first();
        let rest2 = scopes2.drop_first();
        assert forall|i: int| 0 <= i < rest.len() implies same(
            b,
            #[trigger] rest[i],
            c,
            #[trigger] rest2[i],
        ) by {
            assert(same(b, scopes[i + 1], c, scopes2[i + 1]));
        }
        lemma_kept_scopes(b, rest, res, c, rest2, res2);
    }
}

/// Whether the fields from `pos` on can be read and none of them is a
/// resource.
pub open spec fn no_resource_in(s: Seq<u8>, pos: int) -> bool
    decreases s.len() - pos,
{
    pos >= s.len() || match wire::field_at(s, pos, s.len() as int) {
        Err(_) => false,
        Ok(f) => {
            proof {
                wire::lemma_field_bounds(s, pos, s.len() as int);
            }
            !(f.num == 1 && f.wire == 2) && no_resource_in(s, f.next)
        },
    }
}

/// The windows of the scopes among the fields from `pos` on.
spec fn scope_windows(s: Seq<u8>, pos: int) -> Seq<(int, int)>
    decreases s.len() - pos,
{
    if pos >= s.len() {
        Seq::empty()
    } else {
        match wire::field_at(s, pos, s.len() as int) {
            Err(_) => Seq::empty(),
            Ok(f) => {
                proof {
                    wire::lemma_field_bounds(s, pos, s.len() as int);
                }
                if f.num == 2 && f.wire == 2 {
                    seq![(f.lo, f.next)] + scope_windows(s, f.next)
                } else {
                    scope_windows(s, f.next)
                }
            },
        }
    }
}

/// Windows that stand elsewhere.
spec fn windows_moved(ws: Seq<(int, int)>, by: int) -> Seq<(int, int)> {
    ws.map_values(|w: (int, int)| (w.0 + by, w.1 + by))
}

/// Fields without a resource add their scopes, wherever they stand.
proof fn lemma_scopes_found(
    s: Seq<u8>,
    pos: int,
    c: Seq<u8>,
    q: int,
    e: int,
    res: ResourceModel,
    scopes: Seq<(int, int)>,
)
    requires
        0 <= pos <= s.len(),
        no_resource_in(s, pos),
        holds(c, q, s.subrange(pos, s.len() as int)),
        q + (s.len() - pos) <= e,
    ensures
        otlp::resource_fields(c, q, e, res, scopes) == otlp::resource_fields(
            c,
            q + (s.len() - pos),
            e,
            res,
            scopes + windows_moved(scope_windows(s, pos), q - pos),
        ),
    decreases s.len() - pos,
{
    let end = s.len() as int;
    let by = q - pos;
    if pos < end {
        let f = wire::field_at(s, pos, end)->Ok_0;
        wire::lemma_field_bounds(s, pos, end);
        lemma_holds_sub(c, q, s, pos, end, pos, f.next);
        lemma_holds_sub(c, q, s, pos, end, f.next, end);
        lemma_kept_field(s, pos, end, c, q, e);
        let g = moved(f, by);
        let rest = windows_moved(scope_windows(s, f.next), by);
        if f.num == 2 && f.wire == 2 {
            lemma_scopes_found(s, f.next, c, g.next, e, res, scopes.push((g.lo, g.next)));
            assert(scopes.push((g.lo, g.next)) + rest =~= scopes + windows_moved(
                scope_windows(s, pos),
                by,
            ));
        } else {
            lemma_scopes_found(s, f.next, c, g.next, e, res, scopes);
        }
    } else {
        assert(scopes + windows_moved(scope_windows(s, pos), by) =~= scopes);
    }
}

/// Every scope found lies among the fields.
proof fn lemma_windows_bounds(s: Seq<u8>, pos: int)
    requires
        0 <= pos,
    ensures
        forall|i: int|
            0 <= i < scope_windows(s, pos).len() ==> 0 <= (#[trigger] scope_windows(s, pos)[i]).0
                <= scope_windows(s, pos)[i].1 <= s.len(),
    decreases s.len() - pos,
{
    if pos < s.len() && wire::field_at(s, pos, s.len() as int) is Ok {
        let f = wire::field_at(s, pos, s.len() as int)->Ok_0;
        wire::lemma_field_bounds(s, pos, s.len() as int);
        lemma_windows_bounds(s, f.next);
        let all = scope_windows(s, pos);
        let rest = scope_windows(s, f.next);
        assert forall|i: int| 0 <= i < all.len() implies 0 <= (#[trigger] all[i]).0 <= all[i].1
            <= s.len() by {
            if f.num == 2 && f.wire == 2 {
                if i > 0 {
                    assert(all[i] == rest[i - 1]);
                }
            } else {
                assert(all[i] == rest[i]);
            }
        }
    }
}

/// The place of the resource does not matter: a message whose one resource
/// stands before its scopes, and one with the same resource behind the same
/// scopes, hold records that say the same, resource views included.
pub proof fn law_resource_may_stand_anywhere(
    r: Seq<u8>,
    s: Seq<u8>,
    b: Seq<u8>,
    p: int,
    c: Seq<u8>,
    q: int,
)
    requires
        wire::field_at(r, 0, r.len() as int) matches Ok(f) && f.num == 1 && f.wire == 2 && f.next
            == r.len(),
        no_resource_in(s, 0),
        holds(b, p, r + s),
        holds(c, q, s + r),
        otlp::resource_records(b, p, p + r.len() + s.len()) is Ok,
    ensures
        ({
            let xs = otlp::resource_records(b, p, p + r.len() + s.len())->Ok_0;
            let ys = otlp::resource_records(c, q, q + s.len() + r.len());
            ys is Ok && equal_records(b, xs, c, ys->Ok_0)
        }),
{
    let f = wire::field_at(r, 0, r.len() as int)->Ok_0;
    let e = p + r.len() + s.len();
    let e2 = q + s.len() + r.len();
    let none = otlp::no_resource();
    let no_scope = Seq::<(int, int)>::empty();
    let ws = scope_windows(s, 0);
    lemma_holds_parts(b, p, r, s);
    lemma_holds_parts(c, q, s, r);
    assert(r.subrange(0, f.next) =~= r);
    assert(s.subrange(0, s.len() as int) =~= s);
    wire::lemma_field_bounds(r, 0, r.len() as int);
    // The resource first, then the scopes.
    lemma_kept_field(r, 0, r.len() as int, b, p, e);
    let m = otlp::resource_attrs(b, p + f.lo, p + f.next, none)->Ok_0;
    lemma_scopes_found(s, 0, b, p + r.len(), e, m, no_scope);
    let first = windows_moved(ws, p + r.len());
    assert(no_scope + first =~= first);
    assert(otlp::resource_fields(b, p, e, none, no_scope) == otlp::resource_fields(
        b,
        p + r.len(),
        e,
        m,
        no_scope,
    ));
    assert(otlp::resource_fields(b, e, e, m, first) == Ok::<
        (ResourceModel, Seq<(int, int)>),
        wire::ParseError,
    >((m, first)));
    // The scopes first, then the resource.
    lemma_scopes_found(s, 0, c, q, e2, none, no_scope);
    let second = windows_moved(ws, q);
    assert(no_scope + second =~= second);
    lemma_kept_field(r, 0, r.len() as int, c, q + s.len(), e2);
    assert(b.subrange(p + f.lo, p + f.next) == r.subrange(f.lo, f.next));
    lemma_kept_resource(b, p + f.lo, p + f.next, none, c, q + s.len() + f.lo, none);
    let m2 = otlp::resource_attrs(c, q + s.len() + f.lo, q + s.len() + f.next, none)->Ok_0;
    assert(otlp::resource_fields(c, e2, e2, m2, second) == Ok::<
        (ResourceModel, Seq<(int, int)>),
        wire::ParseError,
    >((m2, second)));
    assert(otlp::resource_fields(c, q + s.len(), e2, none, second) == otlp::resource_fields(
        c,
        e2,
        e2,
        m2,
        second,
    ));
    lemma_windows_bounds(s, 0);
    assert forall|i: int| 0 <= i < first.len() implies same(
        b,
        #[trigger] first[i],
        c,
        #[trigger] second[i],
    ) by {
        let w = ws[i];
        lemma_holds_sub(b, p + r.len(), s, 0, s.len() as int, w.0, w.1);
        lemma_holds_sub(c, q, s, 0, s.len() as int, w.0, w.1);
    }
    lemma_kept_scopes(b, first, m, c, second, m2);
}

// ---------------------------------------------------------------------------
// Views lie in the buffer that they were read from.

/// Whether a span, where there is one, lies in a buffer.
pub open spec fn inside_opt(b: Seq<u8>, at: Option<(int, int)>) -> bool {
    at matches Some(at) ==> envelope::bytes_at(b, at) is Some
}

/// Whether every view of a record lies in a buffer.
pub open spec fn inside(b: Seq<u8>, x: RecordModel) -> bool {
    &&& envelope::bytes_at(b, x.body) is Some
    &&& inside_opt(b, x.trace_id)
    &&& inside_opt(b, x.namespace)
    &&& inside_opt(b, x.service_name)
    &&& forall|i: int|
        0 <= i < x.attrs.len() ==> envelope::bytes_at(b, (#[trigger] x.attrs[i]).0) is Some
            && envelope::bytes_at(b, x.attrs[i].1) is Some
}

/// Whether every view of every record lies in a buffer.
pub open spec fn all_inside(b: Seq<u8>, xs: Seq<RecordModel>) -> bool {
    forall|i: int| 0 <= i < xs.len() ==> inside(b, #[trigger] xs[i])
}

proof fn lemma_value_inside(b: Seq<u8>, pos: int, end: int)
    requires
        0 <= pos,
        end <= b.len(),
    ensures
        otlp::any_string(b, pos, end) matches Ok(x) ==> inside_opt(b, x),
    decreases end - pos,
{
    if pos < end && wire::field_at(b, pos, end) is Ok {
        wire::lemma_field_bounds(b, pos, end);
        lemma_value_inside(b, wire::field_at(b, pos, end)->Ok_0.next, end);
    }
}

proof fn lemma_attr_inside(
    b: Seq<u8>,
    pos: int,
    end: int,
    key: Option<(int, int)>,
    value: Option<(int, int)>,
)
    requires
        0 <= pos,
        end <= b.len(),
        inside_opt(b, key),
        inside_opt(b, value),
    ensures
        otlp::key_value(b, pos, end, key, value) matches Ok(Some(x)) ==> envelope::bytes_at(
            b,
            x.0,
        ) is Some && envelope::bytes_at(b, x.1) is Some,
    decreases end - pos,
{
    if pos < end && wire::field_at(b, pos, end) is Ok {
        let f = wire::field_at(b, pos, end)->Ok_0;
        wire::lemma_field_bounds(b, pos, end);
        if f.num == 1 && f.wire == 2 {
            lemma_attr_inside(b, f.next, end, Some((f.lo, f.next)), value);
        } else if f.num == 2 && f.wire == 2 {
            lemma_value_inside(b, f.lo, f.next);
            if let Ok(v) = otlp::any_string(b, f.lo, f.next) {
                lemma_attr_inside(b, f.next, end, key, v);
            }
        } else {
            lemma_attr_inside(b, f.next, end, key, value);
        }
    }
}

proof fn lemma_record_inside(b: Seq<u8>, pos: int, end: int, acc: RecordModel)
    requires
        0 <= pos,
        end <= b.len(),
        inside(b, acc),
    ensures
        otlp::record_fields(b, pos, end, acc) matches Ok(x) ==> inside(b, x),
    decreases end - pos,
{
    if pos < end && wire::field_at(b, pos, end) is Ok {
        let f = wire::field_at(b, pos, end)->Ok_0;
        wire::lemma_field_bounds(b, pos, end);
        lemma_value_inside(b, f.lo, f.next);
        lemma_attr_inside(b, f.lo, f.next, None, None);
        if let Ok(next) = otlp::record_step(b, f, acc) {
            assert(inside(b, next));
            lemma_record_inside(b, f.next, end, next);
        }
    }
}

proof fn lemma_scope_inside(b: Seq<u8>, pos: int, end: int, res: ResourceModel)
    requires
        0 <= pos,
        end <= b.len(),
        inside_opt(b, res.namespace),
        inside_opt(b, res.service_name),
    ensures
        all_inside(b, otlp::scope_read(b, pos, end, res)),
        otlp::scope_records(b, pos, end, res) matches Ok(xs) ==> xs == otlp::scope_read(
            b,
            pos,
            end,
            res,
        ),
    decreases end - pos,
{
    if pos < end && wire::field_at(b, pos, end) is Ok {
        let f = wire::field_at(b, pos, end)->Ok_0;
        wire::lemma_field_bounds(b, pos, end);
        lemma_record_inside(b, f.lo, f.next, otlp::blank_record(f.lo, res));
        lemma_scope_inside(b, f.next, end, res);
    }
}

proof fn lemma_resource_inside(b: Seq<u8>, pos: int, end: int, acc: ResourceModel)
    requires
        0 <= pos,
        end <= b.len(),
        inside_opt(b, acc.namespace),
        inside_opt(b, acc.service_name),
    ensures
        otlp::resource_attrs(b, pos, end, acc) matches Ok(x) ==> inside_opt(b, x.namespace)
            && inside_opt(b, x.service_name),
    decreases end - pos,
{
    if pos < end && wire::field_at(b, pos, end) is Ok {
        let f = wire::field_at(b, pos, end)->Ok_0;
        wire::lemma_field_bounds(b, pos, end);
        lemma_attr_inside(b, f.lo, f.next, None, None);
        lemma_resource_inside(b, f.next, end, acc);
        if let Ok(Some(a)) = otlp::key_value(b, f.lo, f.next, None, None) {
            lemma_resource_inside(b, f.next, end, otlp::resource_step(b, a, acc));
        }
    }
}

/// Whether every window lies in a buffer.
spec fn windows_inside(b: Seq<u8>, scopes: Seq<(int, int)>) -> bool {
    forall|i: int| 0 <= i < scopes.len() ==> envelope::bytes_at(b, #[trigger] scopes[i]) is Some
}

proof fn lemma_resource_fields_inside(
    b: Seq<u8>,
    pos: int,
    end: int,
    res: ResourceModel,
    scopes: Seq<(int, int)>,
)
    requires
        0 <= pos,
        end <= b.len(),
        inside_opt(b, res.namespace),
        inside_opt(b, res.service_name),
        windows_inside(b, scopes),
    ensures
        otlp::resource_fields(b, pos, end, res, scopes) matches Ok(x) ==> inside_opt(
            b,
            x.0.namespace,
        ) && inside_opt(b, x.0.service_name) && windows_inside(b, x.1),
    decreases end - pos,
{
    if pos < end && wire::field_at(b, pos, end) is Ok {
        let f = wire::field_at(b, pos, end)->Ok_0;
        wire::lemma_field_bounds(b, pos, end);
        if f.num == 1 && f.wire == 2 {
            lemma_resource_inside(b, f.lo, f.next, otlp::no_resource());
            if let Ok(r) = otlp::resource_attrs(b, f.lo, f.next, otlp::no_resource()) {
                lemma_resource_fields_inside(b, f.next, end, r, scopes);
            }
        } else if f.num == 2 && f.wire == 2 {
            lemma_resource_fields_inside(b, f.next, end, res, scopes.push((f.lo, f.next)));
        } else {
            lemma_resource_fields_inside(b, f.next, end, res, scopes);
        }
    }
}

proof fn lemma_scopes_inside(b: Seq<u8>, scopes: Seq<(int, int)>, res: ResourceModel)
    requires
        inside_opt(b, res.namespace),
        inside_opt(b, res.service_name),
        windows_inside(b, scopes),
    ensures
        all_inside(b, otlp::scopes_read(b, scopes, res)),
        otlp::scopes_records(b, scopes, res) matches Ok(xs) ==> xs == otlp::scopes_read(
            b,
            scopes,
            res,
        ),
    decreases scopes.len(),
{
    if scopes.len() > 0 {
        assert(envelope::bytes_at(b, scopes[0]) is Some);
        lemma_scope_inside(b, scopes[0].0, scopes[0].1, res);
        lemma_scopes_inside(b, scopes.drop_first(), res);
    }
}

proof fn lemma_request_inside(b: Seq<u8>, pos: int, end: int)
    requires
        0 <= pos,
        end <= b.len(),
    ensures
        all_inside(b, otlp::request_read(b, pos, end)),
        otlp::request_records(b, pos, end) matches Ok(xs) ==> xs == otlp::request_read(
            b,
            pos,
            end,
        ),
    decreases end - pos,
{
    if pos < end && wire::field_at(b, pos, end) is Ok {
        let f = wire::field_at(b, pos, end)->Ok_0;
        wire::lemma_field_bounds(b, pos, end);
        lemma_request_inside(b, f.next, end);
        let none = otlp::no_resource();
        lemma_resource_fields_inside(b, f.lo, f.next, none, Seq::empty());
        if let Ok((res, scopes)) = otlp::resource_fields(b, f.lo, f.next, none, Seq::empty()) {
            lemma_scopes_inside(b, scopes, res);
        }
    }
}

/// Every view of every record that is read lies in the request, also of one
/// that does not parse. Of one that does, what is read is what it holds.
pub proof fn law_views_lie_in_the_request(b: Seq<u8>)
    ensures
        all_inside(b, otlp::read(b)),
        otlp::parsed(b) matches Ok(xs) ==> xs == otlp::read(b),
{
    lemma_request_inside(b, 0, b.len() as int);
}

/// Records to which nothing is done are the same records.
proof fn lemma_untouched(plan: Plan, b: Seq<u8>, idx: int, xs: Seq<RecordModel>)
    requires
        0 <= idx,
        !plan.verdicts.contains(SampleVerdict::Drop),
        plan.entries.len() == 0,
        all_inside(b, xs),
    ensures
        same_records(plan, b, idx, xs, b, xs),
    decreases xs.len(),
{
    if xs.len() > 0 {
        assert(inside(b, xs[0]));
        assert forall|lo: int, hi: int| #[trigger]
            export::applied_spans(plan, idx, lo, hi).len() == 0 by {
            reveal(Seq::filter);
        }
        if 0 <= idx < plan.verdicts.len() {
            assert(plan.verdicts.contains(plan.verdicts[idx]));
        }
        assert forall|i: int| 0 <= i < xs.drop_first().len() implies inside(
            b,
            #[trigger] xs.drop_first()[i],
        ) by {
            assert(inside(b, xs[i + 1]));
        }
        lemma_untouched(plan, b, idx + 1, xs.drop_first());
    }
}

/// Assembly succeeds: of a request that parses, with known masks, it fails
/// exactly where there is something to drop or to mask and a kept record
/// cannot be read down to its values, or where the result is too large for
/// memory.
pub proof fn law_assembly_succeeds(plan: Plan, b: Seq<u8>)
    requires
        otlp::parsed(b) is Ok,
        export::masks_known(plan),
    ensures
        ({
            let readable = export::read_through(
                plan.verdicts,
                b,
                Level::Request,
                0,
                b.len() as int,
                0,
            ) is Some;
            match export::assembled(plan, b, otlp::parsed(b)->Ok_0.len()) {
                Ok(_) => export::untouched(plan) || readable,
                Err(e) => !export::untouched(plan) && (e is TooLarge || !readable),
            }
        }),
{
    let end = b.len() as int;
    export::lemma_rewritten_is_readable(plan, b, Level::Request, 0, end, 0);
    if export::read_through(plan.verdicts, b, Level::Request, 0, end, 0) is Some {
        export::law_readable_is_rewritten(plan, b, Level::Request, 0, end, 0);
    }
    law_walk_meets_every_record(plan, b);
}

/// An assembled request parses, and holds exactly the records that were kept,
/// in their order: each says what it said, with its string body and string
/// attribute values masked where spans apply to them.
pub proof fn law_output_holds_the_kept_records(plan: Plan, b: Seq<u8>)
    requires
        otlp::parsed(b) is Ok,
    ensures
        ({
            let xs = otlp::parsed(b)->Ok_0;
            export::assembled(plan, b, xs.len()) matches Ok(out) ==> {
                &&& otlp::parsed(out) is Ok
                &&& same_records(plan, b, 0, xs, out, otlp::parsed(out)->Ok_0)
            }
        }),
{
    let xs = otlp::parsed(b)->Ok_0;
    if let Ok(out) = export::assembled(plan, b, xs.len()) {
        if export::untouched(plan) {
            law_views_lie_in_the_request(b);
            lemma_untouched(plan, b, 0, xs);
        } else {
            let (r, n) = export::rewritten(plan, b, Level::Request, 0, b.len() as int, 0)->Ok_0;
            assert(r.out.subrange(0, r.out.len() as int) =~= r.out);
            lemma_request(plan, b, 0, b.len() as int, 0, r.out, 0);
        }
    }
}

/// The places of the records that are left, in what was there.
proof fn lemma_sources(
    plan: Plan,
    b: Seq<u8>,
    idx: int,
    xs: Seq<RecordModel>,
    c: Seq<u8>,
    ys: Seq<RecordModel>,
) -> (src: Seq<int>)
    requires
        same_records(plan, b, idx, xs, c, ys),
    ensures
        src.len() == ys.len(),
        forall|j: int, k: int| 0 <= j < k < src.len() ==> #[trigger] src[j] < #[trigger] src[k],
        forall|j: int|
            0 <= j < src.len() ==> 0 <= #[trigger] src[j] < xs.len() && envelope::verdict_at(
                plan.verdicts,
                idx + src[j],
            ) != SampleVerdict::Drop && same_record(
                plan,
                b,
                idx + src[j],
                xs[src[j]],
                c,
                ys[j],
            ),
        forall|i: int|
            0 <= i < xs.len() && #[trigger] envelope::verdict_at(plan.verdicts, idx + i)
                != SampleVerdict::Drop ==> src.contains(i),
    decreases xs.len(),
{
    if xs.len() == 0 {
        Seq::empty()
    } else {
        let dropped = envelope::verdict_at(plan.verdicts, idx) == SampleVerdict::Drop;
        let front = if dropped {
            Seq::<int>::empty()
        } else {
            seq![0int]
        };
        let left = if dropped {
            ys
        } else {
            ys.drop_first()
        };
        let rest = lemma_sources(plan, b, idx + 1, xs.drop_first(), c, left);
        let src = front + rest.map_values(|n: int| n + 1);
        assert forall|j: int| 0 <= j < src.len() implies 0 <= #[trigger] src[j] < xs.len()
            && envelope::verdict_at(plan.verdicts, idx + src[j]) != SampleVerdict::Drop
            && same_record(plan, b, idx + src[j], xs[src[j]], c, ys[j]) by {
            if j >= front.len() {
                let k = j - front.len();
                assert(src[j] == rest[k] + 1);
                assert(xs.drop_first()[rest[k]] == xs[src[j]]);
                assert(left[k] == ys[j]);
                assert(idx + 1 + rest[k] == idx + src[j]);
            }
        }
        assert forall|j: int, k: int| 0 <= j < k < src.len() implies #[trigger] src[j]
            < #[trigger] src[k] by {
            assert(src[k] == rest[k - front.len()] + 1);
            if j >= front.len() {
                assert(src[j] == rest[j - front.len()] + 1);
            }
        }
        assert forall|i: int|
            0 <= i < xs.len() && #[trigger] envelope::verdict_at(plan.verdicts, idx + i)
                != SampleVerdict::Drop implies src.contains(i) by {
            if i == 0 {
                assert(src[0] == 0);
            } else {
                assert(envelope::verdict_at(plan.verdicts, idx + 1 + (i - 1)) != SampleVerdict::Drop);
                let k = choose|k: int| 0 <= k < rest.len() && rest[k] == i - 1;
                assert(src[front.len() + k] == i);
            }
        }
        src
    }
}

/// What masking leaves of a string to which no entry, or just one, applies.
proof fn lemma_masked_text(plan: Plan, b: Seq<u8>, idx: int, at: (int, int))
    requires
        0 <= at.0 <= at.1 <= b.len(),
    ensures
        (forall|i: int|
            #![trigger plan.entries[i]]
            0 <= i < plan.entries.len() && plan.entries[i].record == idx ==> !(at.0
                <= plan.entries[i].redaction.target.start && plan.entries[i].redaction.target.end
                <= at.1)) ==> masked(plan, b, idx, at) == b.subrange(at.0, at.1),
        forall|i: int|
            #![trigger plan.entries[i]]
            (0 <= i < plan.entries.len() && plan.entries[i].record == idx && at.0
                <= plan.entries[i].redaction.target.start < plan.entries[i].redaction.target.end
                <= at.1 && plan.entries[i].redaction.mask.0 < plan.masks.len() && forall|k: int|
                #![trigger plan.entries[k]]
                0 <= k < plan.entries.len() && k != i && plan.entries[k].record == idx ==> !(at.0
                    <= plan.entries[k].redaction.target.start
                    && plan.entries[k].redaction.target.end <= at.1)) ==> masked(plan, b, idx, at)
                == b.subrange(at.0, plan.entries[i].redaction.target.start as int)
                + plan.masks[plan.entries[i].redaction.mask.0 as int] + b.subrange(
                plan.entries[i].redaction.target.end as int,
                at.1,
            ),
{
    if forall|i: int|
        #![trigger plan.entries[i]]
        0 <= i < plan.entries.len() && plan.entries[i].record == idx ==> !(at.0
            <= plan.entries[i].redaction.target.start && plan.entries[i].redaction.target.end
            <= at.1) {
        export::law_no_entry_no_mask(plan, idx, at.0, at.1);
    }
    assert forall|i: int|
        #![trigger plan.entries[i]]
        (0 <= i < plan.entries.len() && plan.entries[i].record == idx && at.0
            <= plan.entries[i].redaction.target.start < plan.entries[i].redaction.target.end
            <= at.1 && plan.entries[i].redaction.mask.0 < plan.masks.len() && forall|k: int|
            #![trigger plan.entries[k]]
            0 <= k < plan.entries.len() && k != i && plan.entries[k].record == idx ==> !(at.0
                <= plan.entries[k].redaction.target.start && plan.entries[k].redaction.target.end
                <= at.1)) implies masked(plan, b, idx, at) == b.subrange(
        at.0,
        plan.entries[i].redaction.target.start as int,
    ) + plan.masks[plan.entries[i].redaction.mask.0 as int] + b.subrange(
        plan.entries[i].redaction.target.end as int,
        at.1,
    ) by {
        let r = plan.entries[i].redaction;
        export::law_one_entry_is_applied_alone(plan, idx, at.0, at.1, i);
        export::law_a_span_becomes_its_mask(b, plan.masks, Seq::empty(), r, at.0, at.1);
        assert(Seq::empty().push(r) =~= seq![r]);
        assert(export::between(b, at.0, r.target.start as int) =~= b.subrange(
            at.0,
            r.target.start as int,
        ));
        assert(export::between(b, r.target.end as int, at.1) =~= b.subrange(
            r.target.end as int,
            at.1,
        ));
    }
}

/// A string of a record: its body for `-1`, else the value of an attribute.
pub open spec fn string_of(x: RecordModel, a: int) -> (int, int) {
    if a < 0 {
        x.body
    } else {
        x.attrs[a].1
    }
}

/// What an assembled request says: the records that were not dropped, all of
/// them, each once and in their order. `src` gives the place of each in the
/// request. Severity, trace id, namespace, service name and attribute keys are
/// those of the request. A string that no entry of its record lies in stays as
/// it was; one with a single entry has the mask in place of exactly that
/// entry's bytes, whatever its length.
pub proof fn law_kept_records_say_the_same(plan: Plan, b: Seq<u8>) -> (src: Seq<int>)
    requires
        otlp::parsed(b) is Ok,
        export::assembled(plan, b, otlp::parsed(b)->Ok_0.len()) is Ok,
    ensures
        ({
            let xs = otlp::parsed(b)->Ok_0;
            let out = export::assembled(plan, b, xs.len())->Ok_0;
            &&& otlp::parsed(out) is Ok
            &&& src.len() == otlp::parsed(out)->Ok_0.len()
            &&& forall|j: int, k: int| 0 <= j < k < src.len() ==> #[trigger] src[j] < #[trigger] src[k]
            &&& forall|j: int|
                0 <= j < src.len() ==> 0 <= #[trigger] src[j] < xs.len() && !(src[j]
                    < plan.verdicts.len() && plan.verdicts[src[j]] == SampleVerdict::Drop)
            &&& forall|i: int|
                0 <= i < xs.len() && !(i < plan.verdicts.len() && plan.verdicts[i]
                    == SampleVerdict::Drop) ==> #[trigger] src.contains(i)
        }),
        forall|j: int|
            #![trigger src[j]]
            0 <= j < src.len() ==> {
                let x = otlp::parsed(b)->Ok_0[src[j]];
                let out = export::assembled(plan, b, otlp::parsed(b)->Ok_0.len())->Ok_0;
                let y = otlp::parsed(out)->Ok_0[j];
                &&& y.severity_number == x.severity_number
                &&& y.trace_id is Some == x.trace_id is Some
                &&& x.trace_id matches Some(s) ==> y.trace_id matches Some(t) && out.subrange(
                    t.0,
                    t.1,
                ) == b.subrange(s.0, s.1)
                &&& y.namespace is Some == x.namespace is Some
                &&& x.namespace matches Some(s) ==> y.namespace matches Some(t) && out.subrange(
                    t.0,
                    t.1,
                ) == b.subrange(s.0, s.1)
                &&& y.service_name is Some == x.service_name is Some
                &&& x.service_name matches Some(s) ==> y.service_name matches Some(t)
                    && out.subrange(t.0, t.1) == b.subrange(s.0, s.1)
                &&& y.attrs.len() == x.attrs.len()
                &&& forall|a: int|
                    0 <= a < x.attrs.len() ==> out.subrange(
                        (#[trigger] y.attrs[a]).0.0,
                        y.attrs[a].0.1,
                    ) == b.subrange(x.attrs[a].0.0, x.attrs[a].0.1)
            },
        forall|j: int, a: int|
            #![trigger string_of(otlp::parsed(b)->Ok_0[src[j]], a)]
            0 <= j < src.len() && -1 <= a < otlp::parsed(b)->Ok_0[src[j]].attrs.len() ==> {
                let x = otlp::parsed(b)->Ok_0[src[j]];
                let out = export::assembled(plan, b, otlp::parsed(b)->Ok_0.len())->Ok_0;
                let y = otlp::parsed(out)->Ok_0[j];
                let s = string_of(x, a);
                let t = string_of(y, a);
                &&& (forall|i: int|
                    #![trigger plan.entries[i]]
                    0 <= i < plan.entries.len() && plan.entries[i].record == src[j] ==> !(s.0
                        <= plan.entries[i].redaction.target.start
                        && plan.entries[i].redaction.target.end <= s.1)) ==> out.subrange(t.0, t.1)
                    == b.subrange(s.0, s.1)
                &&& forall|i: int|
                    #![trigger plan.entries[i]]
                    (0 <= i < plan.entries.len() && plan.entries[i].record == src[j] && s.0
                        <= plan.entries[i].redaction.target.start
                        < plan.entries[i].redaction.target.end <= s.1
                        && plan.entries[i].redaction.mask.0 < plan.masks.len() && forall|k: int|
                        #![trigger plan.entries[k]]
                        0 <= k < plan.entries.len() && k != i && plan.entries[k].record == src[j]
                            ==> !(s.0 <= plan.entries[k].redaction.target.start
                            && plan.entries[k].redaction.target.end <= s.1)) ==> out.subrange(
                        t.0,
                        t.1,
                    ) == b.subrange(s.0, plan.entries[i].redaction.target.start as int)
                        + plan.masks[plan.entries[i].redaction.mask.0 as int] + b.subrange(
                        plan.entries[i].redaction.target.end as int,
                        s.1,
                    )
            },
{
    let xs = otlp::parsed(b)->Ok_0;
    let out = export::assembled(plan, b, xs.len())->Ok_0;
    let ys = otlp::parsed(out)->Ok_0;
    law_output_holds_the_kept_records(plan, b);
    let src = lemma_sources(plan, b, 0, xs, out, ys);
    assert forall|j: int| 0 <= j < src.len() implies 0 <= #[trigger] src[j] < xs.len() && !(src[j]
        < plan.verdicts.len() && plan.verdicts[src[j]] == SampleVerdict::Drop) by {
        assert(envelope::verdict_at(plan.verdicts, 0 + src[j]) != SampleVerdict::Drop);
    }
    assert forall|i: int|
        0 <= i < xs.len() && !(i < plan.verdicts.len() && plan.verdicts[i] == SampleVerdict::Drop)
            implies #[trigger] src.contains(i) by {
        assert(envelope::verdict_at(plan.verdicts, 0 + i) != SampleVerdict::Drop);
    }
    assert forall|j: int, a: int|
        #![trigger string_of(otlp::parsed(b)->Ok_0[src[j]], a)]
        0 <= j < src.len() && -1 <= a < otlp::parsed(b)->Ok_0[src[j]].attrs.len() implies {
        let x = xs[src[j]];
        let y = ys[j];
        let s = string_of(x, a);
        let t = string_of(y, a);
        0 <= s.0 <= s.1 <= b.len() && (out.subrange(t.0, t.1) == masked(plan, b, src[j], s) || (s.0
            == s.1 && out.subrange(t.0, t.1) == b.subrange(s.0, s.1)))
    } by {
        assert(same_record(plan, b, 0 + src[j], xs[src[j]], out, ys[j]));
    }
    assert forall|j: int, a: int|
        #![trigger string_of(otlp::parsed(b)->Ok_0[src[j]], a)]
        0 <= j < src.len() && -1 <= a < otlp::parsed(b)->Ok_0[src[j]].attrs.len() implies {
        let x = otlp::parsed(b)->Ok_0[src[j]];
        let y = ys[j];
        let s = string_of(x, a);
        let t = string_of(y, a);
        &&& (forall|i: int|
            #![trigger plan.entries[i]]
            0 <= i < plan.entries.len() && plan.entries[i].record == src[j] ==> !(s.0
                <= plan.entries[i].redaction.target.start && plan.entries[i].redaction.target.end
                <= s.1)) ==> out.subrange(t.0, t.1) == b.subrange(s.0, s.1)
        &&& forall|i: int|
            #![trigger plan.entries[i]]
            (0 <= i < plan.entries.len() && plan.entries[i].record == src[j] && s.0
                <= plan.entries[i].redaction.target.start < plan.entries[i].redaction.target.end
                <= s.1 && plan.entries[i].redaction.mask.0 < plan.masks.len() && forall|k: int|
                #![trigger plan.entries[k]]
                0 <= k < plan.entries.len() && k != i && plan.entries[k].record == src[j] ==> !(s.0
                    <= plan.entries[k].redaction.target.start
                    && plan.entries[k].redaction.target.end <= s.1)) ==> out.subrange(t.0, t.1)
                == b.subrange(s.0, plan.entries[i].redaction.target.start as int)
                + plan.masks[plan.entries[i].redaction.mask.0 as int] + b.subrange(
                plan.entries[i].redaction.target.end as int,
                s.1,
            )
    } by {
        let x = xs[src[j]];
        let s = string_of(x, a);
        lemma_masked_text(plan, b, src[j], s);
    }
    assert forall|j: int|
        #![trigger src[j]]
        0 <= j < src.len() implies {
        let x = xs[src[j]];
        let y = ys[j];
        &&& y.severity_number == x.severity_number
        &&& y.trace_id is Some == x.trace_id is Some
        &&& x.trace_id matches Some(s) ==> y.trace_id matches Some(t) && out.subrange(t.0, t.1)
            == b.subrange(s.0, s.1)
        &&& y.namespace is Some == x.namespace is Some
        &&& x.namespace matches Some(s) ==> y.namespace matches Some(t) && out.subrange(t.0, t.1)
            == b.subrange(s.0, s.1)
        &&& y.service_name is Some == x.service_name is Some
        &&& x.service_name matches Some(s) ==> y.service_name matches Some(t) && out.subrange(
            t.0,
            t.1,
        ) == b.subrange(s.0, s.1)
        &&& y.attrs.len() == x.attrs.len()
        &&& forall|a: int|
            0 <= a < x.attrs.len() ==> out.subrange((#[trigger] y.attrs[a]).0.0, y.attrs[a].0.1)
                == b.subrange(x.attrs[a].0.0, x.attrs[a].0.1)
    } by {
        assert(same_record(plan, b, 0 + src[j], xs[src[j]], out, ys[j]));
    }
    src
}

} // verus!
