//! What one more field of a request becomes when the request is assembled.
//!
//! A message stands in `b[lo..mid]`, and one more field, as an encoder writes
//! it, in `b[mid..hi]`. Each law says what that field adds to the output:
//! nothing where it is a record that is dropped, its own bytes where nothing
//! in it changes, and else its new payload under a length prefix that fits it.

use crate::encoded;
use crate::envelope;
use crate::envelope::SampleVerdict;
use crate::export;
use crate::export::{AssembleError, Level, Plan, Rewrite};
use crate::wire;
use vstd::prelude::*;

verus! {

proof fn lemma_rewritten_extends(
    plan: Plan,
    b: Seq<u8>,
    level: Level,
    pos: int,
    mid: int,
    hi: int,
    idx: int,
)
    requires
        0 <= pos <= mid <= hi <= b.len(),
        export::rewritten(plan, b, level, pos, mid, idx) is Ok,
    ensures
        ({
            let (r, n) = export::rewritten(plan, b, level, pos, mid, idx)->Ok_0;
            export::rewritten(plan, b, level, pos, hi, idx) == export::after(
                r,
                export::rewritten(plan, b, level, mid, hi, n),
            )
        }),
    decreases mid - pos,
{
    let (r, n) = export::rewritten(plan, b, level, pos, mid, idx)->Ok_0;
    let rest = export::rewritten(plan, b, level, mid, hi, n);
    if pos < mid {
        encoded::lemma_field_extends(b, pos, mid, hi);
        let f = wire::field_at(b, pos, mid)->Ok_0;
        let next = if f.wire == 2 && export::child_of(level, f.num) is Some {
            let child = export::child_of(level, f.num)->0;
            if child == Level::Record {
                idx + 1
            } else {
                export::rewritten(plan, b, child, f.lo, f.next, idx)->Ok_0.1
            }
        } else {
            idx
        };
        lemma_rewritten_extends(plan, b, level, f.next, mid, hi, next);
        let (r2, n2) = export::rewritten(plan, b, level, f.next, mid, next)->Ok_0;
        let first = if f.wire != 2 {
            export::kept(b, pos, f.next)
        } else if level == Level::AnyValue && f.num == 1 {
            export::string_rewrite(plan, b, idx, pos, f)->Ok_0
        } else {
            match export::child_of(level, f.num) {
                None => export::kept(b, pos, f.next),
                Some(child) => if child == Level::Record && envelope::verdict_at(
                    plan.verdicts,
                    idx,
                ) == SampleVerdict::Drop {
                    Rewrite { changed: true, out: Seq::empty() }
                } else {
                    export::nested_rewrite(
                        b,
                        pos,
                        f,
                        export::rewritten(plan, b, child, f.lo, f.next, idx)->Ok_0.0,
                    )->Ok_0
                },
            }
        };
        assert(r.out == first.out + r2.out);
        if let Ok((r3, _)) = rest {
            assert((first.out + r2.out) + r3.out =~= first.out + (r2.out + r3.out));
        }
    } else {
        if let Ok((r3, _)) = rest {
            assert(r.out + r3.out =~= r3.out);
        }
    }
}

/// Every field that holds neither text to mask nor records leaves byte for
/// byte as it came: any varint or fixed-width field of any message, and any
/// length-delimited one but the few that may change.
pub proof fn law_other_fields_leave_as_they_came(
    plan: Plan,
    b: Seq<u8>,
    level: Level,
    lo: int,
    mid: int,
    hi: int,
    idx: int,
    num: u32,
    wire: u8,
)
    requires
        0 <= lo <= mid <= hi <= b.len() <= usize::MAX,
        export::rewritten(plan, b, level, lo, mid, idx) is Ok,
        encoded::one_field(b.subrange(mid, hi), num, wire),
        wire == 2 ==> match level {
            Level::AnyValue => num != 1,
            Level::KeyValue => num != 2,
            Level::Record => num != 5 && num != 6,
            Level::Scope => num != 2,
            Level::Resource => num != 2,
            Level::Request => num != 1,
        },
    ensures
        ({
            let (r, n) = export::rewritten(plan, b, level, lo, mid, idx)->Ok_0;
            export::rewritten(plan, b, level, lo, hi, idx) matches Ok((all, m)) && all.out == r.out
                + b.subrange(mid, hi) && all.changed == r.changed && m == n
        }),
{
    encoded::law_fields_read_back(b, mid, hi, num, wire);
    wire::lemma_field_bounds(b, mid, hi);
    lemma_rewritten_extends(plan, b, level, lo, mid, hi, idx);
    let (r, n) = export::rewritten(plan, b, level, lo, mid, idx)->Ok_0;
    reveal_with_fuel(export::rewritten, 2);
    let s = b.subrange(mid, hi);
    assert(s + Seq::<u8>::empty() =~= s);
}

/// A message without a field leaves as nothing, and a record that is dropped
/// adds nothing: the scope is what it was without it.
pub proof fn law_dropped_records_leave_nothing(
    plan: Plan,
    b: Seq<u8>,
    lo: int,
    mid: int,
    hi: int,
    idx: int,
    record: Seq<u8>,
)
    requires
        0 <= lo <= mid <= hi <= b.len() <= usize::MAX,
        export::rewritten(plan, b, Level::Scope, lo, mid, idx) is Ok,
        b.subrange(mid, hi) == seq![0x12u8] + export::varint_bytes(record.len()) + record,
        ({
            let (r, n) = export::rewritten(plan, b, Level::Scope, lo, mid, idx)->Ok_0;
            0 <= n < plan.verdicts.len() && plan.verdicts[n] == SampleVerdict::Drop
        }),
    ensures
        export::rewritten(plan, b, Level::Scope, lo, lo, idx) matches Ok((r, n)) && r.out.len() == 0
            && !r.changed && n == idx,
        ({
            let (r, n) = export::rewritten(plan, b, Level::Scope, lo, mid, idx)->Ok_0;
            export::rewritten(plan, b, Level::Scope, lo, hi, idx) matches Ok((all, m)) && all.out
                == r.out && all.changed && m == n + 1
        }),
{
    encoded::law_delimited_fields_read_back(b, mid, hi, 2, record);
    lemma_rewritten_extends(plan, b, Level::Scope, lo, mid, hi, idx);
    let (r, n) = export::rewritten(plan, b, Level::Scope, lo, mid, idx)->Ok_0;
    reveal_with_fuel(export::rewritten, 2);
    let none = Seq::<u8>::empty();
    assert(r.out + (none + none) =~= r.out);
}

/// A record that is kept adds its own bytes where nothing in it changes, and
/// else what became of it under a new length. A record without a verdict is
/// kept.
pub proof fn law_kept_records_stay(
    plan: Plan,
    b: Seq<u8>,
    lo: int,
    mid: int,
    hi: int,
    idx: int,
    record: Seq<u8>,
)
    requires
        0 <= lo <= mid <= hi <= b.len() <= usize::MAX,
        export::rewritten(plan, b, Level::Scope, lo, mid, idx) is Ok,
        b.subrange(mid, hi) == seq![0x12u8] + export::varint_bytes(record.len()) + record,
        ({
            let (r, n) = export::rewritten(plan, b, Level::Scope, lo, mid, idx)->Ok_0;
            0 <= n < plan.verdicts.len() ==> plan.verdicts[n] == SampleVerdict::Keep
        }),
    ensures
        ({
            let (r, n) = export::rewritten(plan, b, Level::Scope, lo, mid, idx)->Ok_0;
            match export::rewritten(plan, b, Level::Record, hi - record.len(), hi, n) {
                Err(e) => export::rewritten(plan, b, Level::Scope, lo, hi, idx) == Err::<
                    (Rewrite, int),
                    AssembleError,
                >(e),
                Ok((inner, _)) => inner.out.len() <= usize::MAX ==> (export::rewritten(
                    plan,
                    b,
                    Level::Scope,
                    lo,
                    hi,
                    idx,
                ) matches Ok((all, m)) && m == n + 1 && all.changed == (r.changed || inner.changed)
                    && all.out == r.out + (if inner.changed {
                    seq![0x12u8] + export::varint_bytes(inner.out.len()) + inner.out
                } else {
                    b.subrange(mid, hi)
                })),
            }
        }),
{
    encoded::law_delimited_fields_read_back(b, mid, hi, 2, record);
    lemma_rewritten_extends(plan, b, Level::Scope, lo, mid, hi, idx);
    let (r, n) = export::rewritten(plan, b, Level::Scope, lo, mid, idx)->Ok_0;
    reveal_with_fuel(export::rewritten, 2);
    if let Ok((inner, _)) = export::rewritten(plan, b, Level::Record, hi - record.len(), hi, n) {
        lemma_new_header(0x12, 2, inner.out);
        let s = b.subrange(mid, hi);
        let t = seq![0x12u8] + export::varint_bytes(inner.out.len()) + inner.out;
        assert(s + Seq::<u8>::empty() =~= s);
        assert(t + Seq::<u8>::empty() =~= t);
    }
}

proof fn lemma_new_header(tag: u8, num: u32, payload: Seq<u8>)
    requires
        tag < 128,
        tag == num * 8 + 2,
    ensures
        export::header(num as nat, payload.len()) + payload == seq![tag] + export::varint_bytes(
            payload.len(),
        ) + payload,
{
    assert(export::varint_bytes((num * 8 + 2) as nat) =~= seq![tag]);
}

/// A field that holds another message adds its own bytes where nothing in it
/// changes, and else what became of it under a new length: bodies and
/// attributes of a record, the value of an attribute, the scopes of a
/// resource, and the resources of a request.
pub proof fn law_nested_messages_stay_or_are_rebuilt(
    plan: Plan,
    b: Seq<u8>,
    level: Level,
    child: Level,
    tag: u8,
    num: u32,
    lo: int,
    mid: int,
    hi: int,
    idx: int,
    payload: Seq<u8>,
)
    requires
        0 <= lo <= mid <= hi <= b.len() <= usize::MAX,
        export::rewritten(plan, b, level, lo, mid, idx) is Ok,
        ({
            ||| level == Level::KeyValue && tag == 0x12 && num == 2 && child == Level::AnyValue
            ||| level == Level::Record && tag == 0x2A && num == 5 && child == Level::AnyValue
            ||| level == Level::Record && tag == 0x32 && num == 6 && child == Level::KeyValue
            ||| level == Level::Resource && tag == 0x12 && num == 2 && child == Level::Scope
            ||| level == Level::Request && tag == 0x0A && num == 1 && child == Level::Resource
        }),
        b.subrange(mid, hi) == seq![tag] + export::varint_bytes(payload.len()) + payload,
    ensures
        ({
            let (r, n) = export::rewritten(plan, b, level, lo, mid, idx)->Ok_0;
            match export::rewritten(plan, b, child, hi - payload.len(), hi, n) {
                Err(e) => export::rewritten(plan, b, level, lo, hi, idx) == Err::<
                    (Rewrite, int),
                    AssembleError,
                >(e),
                Ok((inner, n2)) => inner.out.len() <= usize::MAX ==> (export::rewritten(
                    plan,
                    b,
                    level,
                    lo,
                    hi,
                    idx,
                ) matches Ok((all, m)) && m == n2 && all.changed == (r.changed || inner.changed)
                    && all.out == r.out + (if inner.changed {
                    seq![tag] + export::varint_bytes(inner.out.len()) + inner.out
                } else {
                    b.subrange(mid, hi)
                })),
            }
        }),
{
    encoded::law_delimited_fields_read_back(b, mid, hi, num, payload);
    lemma_rewritten_extends(plan, b, level, lo, mid, hi, idx);
    let (r, n) = export::rewritten(plan, b, level, lo, mid, idx)->Ok_0;
    reveal_with_fuel(export::rewritten, 2);
    if let Ok((inner, _)) = export::rewritten(plan, b, child, hi - payload.len(), hi, n) {
        lemma_new_header(tag, num, inner.out);
        let s = b.subrange(mid, hi);
        let t = seq![tag] + export::varint_bytes(inner.out.len()) + inner.out;
        assert(s + Seq::<u8>::empty() =~= s);
        assert(t + Seq::<u8>::empty() =~= t);
    }
}

/// A string without an applied span adds its own bytes, and one with spans
/// what splicing leaves of it, under a new length.
pub proof fn law_strings_are_spliced(
    plan: Plan,
    b: Seq<u8>,
    lo: int,
    mid: int,
    hi: int,
    idx: int,
    text: Seq<u8>,
)
    requires
        0 <= lo <= mid <= hi <= b.len() <= usize::MAX,
        export::rewritten(plan, b, Level::AnyValue, lo, mid, idx) is Ok,
        b.subrange(mid, hi) == seq![0x0Au8] + export::varint_bytes(text.len()) + text,
    ensures
        ({
            let (r, n) = export::rewritten(plan, b, Level::AnyValue, lo, mid, idx)->Ok_0;
            let spans = export::applied_spans(plan, n, hi - text.len(), hi);
            let all = export::rewritten(plan, b, Level::AnyValue, lo, hi, idx);
            if spans.len() == 0 {
                all matches Ok((all, m)) && m == n && all.changed == r.changed && all.out == r.out
                    + b.subrange(mid, hi)
            } else {
                match export::spliced(b, plan.masks, spans, hi - text.len(), hi) {
                    Err(e) => all == Err::<(Rewrite, int), AssembleError>(e),
                    Ok(s) => s.len() <= usize::MAX ==> (all matches Ok((all, m)) && m == n
                        && all.changed && all.out == r.out + (seq![0x0Au8] + export::varint_bytes(
                        s.len(),
                    ) + s)),
                }
            }
        }),
{
    encoded::law_delimited_fields_read_back(b, mid, hi, 1, text);
    lemma_rewritten_extends(plan, b, Level::AnyValue, lo, mid, hi, idx);
    let (r, n) = export::rewritten(plan, b, Level::AnyValue, lo, mid, idx)->Ok_0;
    reveal_with_fuel(export::rewritten, 2);
    let spans = export::applied_spans(plan, n, hi - text.len(), hi);
    let old_field = b.subrange(mid, hi);
    assert(old_field + Seq::<u8>::empty() =~= old_field);
    if let Ok(s) = export::spliced(b, plan.masks, spans, hi - text.len(), hi) {
        lemma_new_header(0x0A, 1, s);
        let t = seq![0x0Au8] + export::varint_bytes(s.len()) + s;
        assert(t + Seq::<u8>::empty() =~= t);
    }
}

/// A field that cannot be read stops the assembly, with what is wrong with it.
pub proof fn law_what_cannot_be_read_is_not_assembled(
    plan: Plan,
    b: Seq<u8>,
    level: Level,
    lo: int,
    mid: int,
    hi: int,
    idx: int,
)
    requires
        0 <= lo <= mid < hi <= b.len(),
        export::rewritten(plan, b, level, lo, mid, idx) is Ok,
        wire::field_at(b, mid, hi) is Err,
    ensures
        export::rewritten(plan, b, level, lo, hi, idx) == Err::<(Rewrite, int), AssembleError>(
            AssembleError::Wire(wire::field_at(b, mid, hi)->Err_0),
        ),
{
    lemma_rewritten_extends(plan, b, level, lo, mid, hi, idx);
}

/// A span that asks for a mask which there is not stops the assembly.
pub proof fn law_unknown_masks_are_not_assembled(
    b: Seq<u8>,
    masks: Seq<Seq<u8>>,
    spans: Seq<envelope::Redaction>,
    lo: int,
    hi: int,
    k: int,
)
    requires
        0 <= k < spans.len(),
        spans[k].mask.0 >= masks.len(),
        forall|j: int| 0 <= j < k ==> (#[trigger] spans[j]).mask.0 < masks.len(),
    ensures
        export::spliced(b, masks, spans, lo, hi) == Err::<Seq<u8>, AssembleError>(
            AssembleError::UnknownMask(spans[k].mask.0),
        ),
    decreases k,
{
    if k > 0 {
        assert(spans[0].mask.0 < masks.len());
        let rest = spans.drop_first();
        assert forall|j: int| 0 <= j < k - 1 implies (#[trigger] rest[j]).mask.0 < masks.len() by {
            assert(rest[j] == spans[j + 1]);
        }
        law_unknown_masks_are_not_assembled(
            b,
            masks,
            rest,
            spans[0].target.end as int,
            hi,
            k - 1,
        );
    }
}

/// A plan that drops and masks nothing changes nothing.
proof fn lemma_untouched_is_unchanged(
    plan: Plan,
    b: Seq<u8>,
    level: Level,
    pos: int,
    end: int,
    idx: int,
)
    requires
        plan.entries.len() == 0,
        !plan.verdicts.contains(SampleVerdict::Drop),
    ensures
        export::rewritten(plan, b, level, pos, end, idx) matches Ok((r, _)) ==> !r.changed,
    decreases export::rank(level), end - pos,
{
    if pos < end && wire::field_at(b, pos, end) is Ok {
        let f = wire::field_at(b, pos, end)->Ok_0;
        wire::lemma_field_bounds(b, pos, end);
        export::law_no_entry_no_mask(plan, idx, f.lo, f.next);
        if 0 <= idx < plan.verdicts.len() {
            assert(plan.verdicts.contains(plan.verdicts[idx]));
        }
        lemma_untouched_is_unchanged(plan, b, level, f.next, end, idx);
        if f.wire == 2 && export::child_of(level, f.num) is Some {
            let child = export::child_of(level, f.num)->0;
            lemma_untouched_is_unchanged(plan, b, child, f.lo, f.next, idx);
            if let Ok((_, n)) = export::rewritten(plan, b, child, f.lo, f.next, idx) {
                lemma_untouched_is_unchanged(
                    plan,
                    b,
                    level,
                    f.next,
                    end,
                    if child == Level::Record {
                        idx + 1
                    } else {
                        n
                    },
                );
            }
        }
    }
}

/// What is assembled is what becomes of the whole request, all of it and
/// nothing else. It is refused where it cannot be read, where it does not hold
/// as many records as were decided on, or where it would not fit in memory;
/// where there is nothing to drop or to mask, it leaves as it came.
pub proof fn law_the_whole_request_is_assembled(plan: Plan, b: Seq<u8>, records: nat)
    ensures
        ({
            let out = export::assembled(plan, b, records);
            let whole = export::rewritten(plan, b, Level::Request, 0, b.len() as int, 0);
            &&& (plan.entries.len() == 0 && forall|i: int|
                0 <= i < plan.verdicts.len() ==> #[trigger] plan.verdicts[i] == SampleVerdict::Keep)
                ==> out == Ok::<Seq<u8>, AssembleError>(b)
            &&& (plan.entries.len() > 0 || exists|i: int|
                0 <= i < plan.verdicts.len() && #[trigger] plan.verdicts[i] == SampleVerdict::Drop)
                ==> match whole {
                Err(e) => out == Err::<Seq<u8>, AssembleError>(e),
                Ok((r, walked)) => if walked != records {
                    out matches Err(AssembleError::RecordCountMismatch { .. })
                } else if r.out.len() > usize::MAX {
                    out == Err::<Seq<u8>, AssembleError>(AssembleError::TooLarge)
                } else {
                    out == Ok::<Seq<u8>, AssembleError>(r.out)
                },
            }
            &&& (whole matches Ok((r, _)) && out matches Ok(o)) ==> out->Ok_0 == whole->Ok_0.0.out
        }),
{
    if exists|i: int|
        0 <= i < plan.verdicts.len() && #[trigger] plan.verdicts[i] == SampleVerdict::Drop {
        let i = choose|i: int|
            0 <= i < plan.verdicts.len() && #[trigger] plan.verdicts[i] == SampleVerdict::Drop;
        assert(plan.verdicts.contains(SampleVerdict::Drop));
    }
    if export::untouched(plan) {
        lemma_untouched_is_unchanged(plan, b, Level::Request, 0, b.len() as int, 0);
        export::law_unchanged_is_verbatim(plan, b, Level::Request, 0, b.len() as int, 0);
        assert(b.subrange(0, b.len() as int) =~= b);
    }
}

} // verus!
