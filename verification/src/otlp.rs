//! Zero-copy walk over an OTLP logs request.
//!
//! Message shape:
//! ```text
//! ExportLogsServiceRequest { repeated ResourceLogs resource_logs = 1 }
//! ResourceLogs  { Resource resource = 1; repeated ScopeLogs scope_logs = 2 }
//! Resource      { repeated KeyValue attributes = 1 }
//! ScopeLogs     { InstrumentationScope scope = 1; repeated LogRecord log_records = 2 }
//! LogRecord     { SeverityNumber severity_number = 2; AnyValue body = 5;
//!                 repeated KeyValue attributes = 6; bytes trace_id = 9; .. }
//! KeyValue      { string key = 1; AnyValue value = 2 }
//! AnyValue      { oneof: string_value = 1 | .. }
//! ```
//! Only string bodies and values become views; everything else is skipped.
//! The nesting depth is fixed by the schema. Each spec function below says
//! what one message holds, field by field from the front; the first error
//! found on that way is the result.

use crate::envelope;
use crate::envelope::{AttrView, RecordModel, RecordView};
use crate::fidelity;
use crate::lists::{AttrList, RecordList, WindowList};
use crate::text;
use crate::wire;
use crate::wire::{ParseError, WireCursor};
use std::ops::Range;
use vstd::prelude::*;
use vstd::slice::slice_subrange;

verus! {

/// Resource attribute that holds the Kubernetes namespace.
pub const NAMESPACE_KEY: &'static str = "k8s.namespace.name";

/// Resource attribute that holds the service name.
pub const SERVICE_KEY: &'static str = "service.name";

/// `AnyValue`: its first `string_value`, if there is one.
pub open spec fn any_string(b: Seq<u8>, pos: int, end: int) -> Result<
    Option<(int, int)>,
    ParseError,
>
    decreases end - pos,
{
    if pos >= end {
        Ok(None)
    } else {
        match wire::field_at(b, pos, end) {
            Err(e) => Err(e),
            Ok(f) => if f.num == 1 && f.wire == 2 {
                Ok(Some((f.lo, f.next)))
            } else {
                proof {
                    wire::lemma_field_bounds(b, pos, end);
                }
                any_string(b, f.next, end)
            },
        }
    }
}

/// `KeyValue`: its last key and the string of its last value, given what has
/// been seen so far. It is an attribute only where both are there.
pub open spec fn key_value(
    b: Seq<u8>,
    pos: int,
    end: int,
    key: Option<(int, int)>,
    value: Option<(int, int)>,
) -> Result<Option<((int, int), (int, int))>, ParseError>
    decreases end - pos,
{
    if pos >= end {
        match (key, value) {
            (Some(k), Some(v)) => Ok(Some((k, v))),
            _ => Ok(None),
        }
    } else {
        match wire::field_at(b, pos, end) {
            Err(e) => Err(e),
            Ok(f) => {
                proof {
                    wire::lemma_field_bounds(b, pos, end);
                }
                if f.num == 1 && f.wire == 2 {
                    key_value(b, f.next, end, Some((f.lo, f.next)), value)
                } else if f.num == 2 && f.wire == 2 {
                    match any_string(b, f.lo, f.next) {
                        Err(e) => Err(e),
                        Ok(v) => key_value(b, f.next, end, key, v),
                    }
                } else {
                    key_value(b, f.next, end, key, value)
                }
            },
        }
    }
}

/// `LogRecord`: what its remaining fields add to `acc`.
pub open spec fn record_fields(b: Seq<u8>, pos: int, end: int, acc: RecordModel) -> Result<
    RecordModel,
    ParseError,
>
    decreases end - pos,
{
    if pos >= end {
        Ok(acc)
    } else {
        match wire::field_at(b, pos, end) {
            Err(e) => Err(e),
            Ok(f) => {
                proof {
                    wire::lemma_field_bounds(b, pos, end);
                }
                match record_step(b, f, acc) {
                    Err(e) => Err(e),
                    Ok(next) => record_fields(b, f.next, end, next),
                }
            },
        }
    }
}

/// `LogRecord`: what one field adds. The last severity, string body and
/// trace id of 16 or 32 bytes win; string attributes add up in order.
pub open spec fn record_step(b: Seq<u8>, f: wire::Field, acc: RecordModel) -> Result<
    RecordModel,
    ParseError,
> {
    if f.num == 2 && f.wire == 0 {
        Ok(RecordModel { severity_number: Some(f.value as i32), ..acc })
    } else if f.num == 5 && f.wire == 2 {
        match any_string(b, f.lo, f.next) {
            Err(e) => Err(e),
            Ok(Some(s)) => Ok(RecordModel { body: s, ..acc }),
            Ok(None) => Ok(acc),
        }
    } else if f.num == 6 && f.wire == 2 {
        match key_value(b, f.lo, f.next, None, None) {
            Err(e) => Err(e),
            Ok(Some(a)) => Ok(RecordModel { attrs: acc.attrs.push(a), ..acc }),
            Ok(None) => Ok(acc),
        }
    } else if f.num == 9 && f.wire == 2 && (f.next - f.lo == 16 || f.next - f.lo == 32) {
        Ok(RecordModel { trace_id: Some((f.lo, f.next)), ..acc })
    } else {
        Ok(acc)
    }
}

/// Resource-level views that every record under the resource carries.
pub struct ResourceModel {
    pub namespace: Option<(int, int)>,
    pub service_name: Option<(int, int)>,
}

/// A record before any of its fields is read: the empty body at its start.
pub open spec fn blank_record(start: int, res: ResourceModel) -> RecordModel {
    RecordModel {
        body: (start, start),
        trace_id: None,
        attrs: Seq::empty(),
        severity_number: None,
        namespace: res.namespace,
        service_name: res.service_name,
    }
}

/// The `LogRecord` in `b[lo..hi]`.
pub open spec fn record_at(b: Seq<u8>, lo: int, hi: int, res: ResourceModel) -> Result<
    RecordModel,
    ParseError,
> {
    record_fields(b, lo, hi, blank_record(lo, res))
}

/// The result of a walk whose first part yielded `done`.
pub open spec fn joined(
    done: Seq<RecordModel>,
    rest: Result<Seq<RecordModel>, ParseError>,
) -> Result<Seq<RecordModel>, ParseError> {
    match rest {
        Ok(rs) => Ok(done + rs),
        Err(e) => Err(e),
    }
}

/// `ScopeLogs`: its records, in order.
pub open spec fn scope_records(b: Seq<u8>, pos: int, end: int, res: ResourceModel) -> Result<
    Seq<RecordModel>,
    ParseError,
>
    decreases end - pos,
{
    if pos >= end {
        Ok(Seq::empty())
    } else {
        match wire::field_at(b, pos, end) {
            Err(e) => Err(e),
            Ok(f) => {
                proof {
                    wire::lemma_field_bounds(b, pos, end);
                }
                if f.num == 2 && f.wire == 2 {
                    match record_at(b, f.lo, f.next, res) {
                        Err(e) => Err(e),
                        Ok(r) => joined(seq![r], scope_records(b, f.next, end, res)),
                    }
                } else {
                    scope_records(b, f.next, end, res)
                }
            },
        }
    }
}

/// The records of several `ScopeLogs` windows, one after another.
pub open spec fn scopes_records(
    b: Seq<u8>,
    scopes: Seq<(int, int)>,
    res: ResourceModel,
) -> Result<Seq<RecordModel>, ParseError>
    decreases scopes.len(),
{
    if scopes.len() == 0 {
        Ok(Seq::empty())
    } else {
        match scope_records(b, scopes[0].0, scopes[0].1, res) {
            Err(e) => Err(e),
            Ok(rs) => joined(rs, scopes_records(b, scopes.drop_first(), res)),
        }
    }
}

/// `Resource`: the last namespace and the last service name among its
/// attributes, given what has been seen so far.
pub open spec fn resource_attrs(b: Seq<u8>, pos: int, end: int, acc: ResourceModel) -> Result<
    ResourceModel,
    ParseError,
>
    decreases end - pos,
{
    if pos >= end {
        Ok(acc)
    } else {
        match wire::field_at(b, pos, end) {
            Err(e) => Err(e),
            Ok(f) => {
                proof {
                    wire::lemma_field_bounds(b, pos, end);
                }
                if f.num == 1 && f.wire == 2 {
                    match key_value(b, f.lo, f.next, None, None) {
                        Err(e) => Err(e),
                        Ok(None) => resource_attrs(b, f.next, end, acc),
                        Ok(Some(a)) => resource_attrs(b, f.next, end, resource_step(b, a, acc)),
                    }
                } else {
                    resource_attrs(b, f.next, end, acc)
                }
            },
        }
    }
}

/// What one attribute adds to a resource's views.
pub open spec fn resource_step(
    b: Seq<u8>,
    attr: ((int, int), (int, int)),
    acc: ResourceModel,
) -> ResourceModel {
    let key = envelope::bytes_at(b, attr.0);
    if key == Some(vstd::utf8::encode_utf8(NAMESPACE_KEY@)) {
        ResourceModel { namespace: Some(attr.1), ..acc }
    } else if key == Some(vstd::utf8::encode_utf8(SERVICE_KEY@)) {
        ResourceModel { service_name: Some(attr.1), ..acc }
    } else {
        acc
    }
}

/// No resource-level view at all.
pub open spec fn no_resource() -> ResourceModel {
    ResourceModel { namespace: None, service_name: None }
}

/// `ResourceLogs`: the views of its last resource and the windows of its
/// scopes, given what has been seen so far.
pub open spec fn resource_fields(
    b: Seq<u8>,
    pos: int,
    end: int,
    res: ResourceModel,
    scopes: Seq<(int, int)>,
) -> Result<(ResourceModel, Seq<(int, int)>), ParseError>
    decreases end - pos,
{
    if pos >= end {
        Ok((res, scopes))
    } else {
        match wire::field_at(b, pos, end) {
            Err(e) => Err(e),
            Ok(f) => {
                proof {
                    wire::lemma_field_bounds(b, pos, end);
                }
                if f.num == 1 && f.wire == 2 {
                    match resource_attrs(b, f.lo, f.next, no_resource()) {
                        Err(e) => Err(e),
                        Ok(r) => resource_fields(b, f.next, end, r, scopes),
                    }
                } else if f.num == 2 && f.wire == 2 {
                    resource_fields(b, f.next, end, res, scopes.push((f.lo, f.next)))
                } else {
                    resource_fields(b, f.next, end, res, scopes)
                }
            },
        }
    }
}

/// `ResourceLogs`: its records, in order. The resource is known before any
/// record is read, wherever it stands among the fields.
pub open spec fn resource_records(b: Seq<u8>, lo: int, hi: int) -> Result<
    Seq<RecordModel>,
    ParseError,
> {
    match resource_fields(b, lo, hi, no_resource(), Seq::empty()) {
        Err(e) => Err(e),
        Ok((res, scopes)) => scopes_records(b, scopes, res),
    }
}

/// `ExportLogsServiceRequest`: its records, in order.
pub open spec fn request_records(b: Seq<u8>, pos: int, end: int) -> Result<
    Seq<RecordModel>,
    ParseError,
>
    decreases end - pos,
{
    if pos >= end {
        Ok(Seq::empty())
    } else {
        match wire::field_at(b, pos, end) {
            Err(e) => Err(e),
            Ok(f) => {
                proof {
                    wire::lemma_field_bounds(b, pos, end);
                }
                if f.num == 1 && f.wire == 2 {
                    match resource_records(b, f.lo, f.next) {
                        Err(e) => Err(e),
                        Ok(rs) => joined(rs, request_records(b, f.next, end)),
                    }
                } else {
                    request_records(b, f.next, end)
                }
            },
        }
    }
}

/// What a whole buffer holds as an export request.
pub open spec fn parsed(b: Seq<u8>) -> Result<Seq<RecordModel>, ParseError> {
    request_records(b, 0, b.len() as int)
}

/// `ScopeLogs`: the records that a walk reads, in order, up to its end or to
/// the first error.
pub open spec fn scope_read(b: Seq<u8>, pos: int, end: int, res: ResourceModel) -> Seq<RecordModel>
    decreases end - pos,
{
    if pos >= end {
        Seq::empty()
    } else {
        match wire::field_at(b, pos, end) {
            Err(_) => Seq::empty(),
            Ok(f) => {
                proof {
                    wire::lemma_field_bounds(b, pos, end);
                }
                if f.num == 2 && f.wire == 2 {
                    match record_at(b, f.lo, f.next, res) {
                        Err(_) => Seq::empty(),
                        Ok(r) => seq![r] + scope_read(b, f.next, end, res),
                    }
                } else {
                    scope_read(b, f.next, end, res)
                }
            },
        }
    }
}

/// The records that a walk over several `ScopeLogs` windows reads, up to its
/// end or to the first error.
pub open spec fn scopes_read(b: Seq<u8>, scopes: Seq<(int, int)>, res: ResourceModel) -> Seq<
    RecordModel,
>
    decreases scopes.len(),
{
    if scopes.len() == 0 {
        Seq::empty()
    } else {
        match scope_records(b, scopes[0].0, scopes[0].1, res) {
            Err(_) => scope_read(b, scopes[0].0, scopes[0].1, res),
            Ok(rs) => rs + scopes_read(b, scopes.drop_first(), res),
        }
    }
}

/// `ResourceLogs`: the records that a walk reads, up to its end or to the
/// first error.
pub open spec fn resource_read(b: Seq<u8>, lo: int, hi: int) -> Seq<RecordModel> {
    match resource_fields(b, lo, hi, no_resource(), Seq::empty()) {
        Err(_) => Seq::empty(),
        Ok((res, scopes)) => scopes_read(b, scopes, res),
    }
}

/// `ExportLogsServiceRequest`: the records that a walk reads, up to its end or
/// to the first error.
pub open spec fn request_read(b: Seq<u8>, pos: int, end: int) -> Seq<RecordModel>
    decreases end - pos,
{
    if pos >= end {
        Seq::empty()
    } else {
        match wire::field_at(b, pos, end) {
            Err(_) => Seq::empty(),
            Ok(f) => {
                proof {
                    wire::lemma_field_bounds(b, pos, end);
                }
                if f.num == 1 && f.wire == 2 {
                    match resource_records(b, f.lo, f.next) {
                        Err(_) => resource_read(b, f.lo, f.next),
                        Ok(rs) => rs + request_read(b, f.next, end),
                    }
                } else {
                    request_read(b, f.next, end)
                }
            },
        }
    }
}

/// The records that are read of a whole buffer, up to its end or to the first
/// error.
pub open spec fn read(b: Seq<u8>) -> Seq<RecordModel> {
    request_read(b, 0, b.len() as int)
}

/// `AnyValue.string_value` as a view, if that is the variant set.
fn any_value_string(buf: &[u8], window: Range<usize>) -> (r: Result<
    Option<Range<usize>>,
    ParseError,
>)
    requires
        window.end <= buf@.len(),
    ensures
        match any_string(buf@, window.start as int, window.end as int) {
            Ok(s) => r matches Ok(v) && envelope::span_opt(v) == s,
            Err(e) => r == Err::<Option<Range<usize>>, ParseError>(e),
        },
{
    let ghost lo = window.start as int;
    let ghost hi = window.end as int;
    let mut cur = WireCursor::new(buf, window.start..window.end);
    while !cur.done()
        invariant
            lo == window.start,
            hi == window.end,
            cur.buffer() == buf@,
            cur.limit() == hi,
            any_string(buf@, lo, hi) == any_string(buf@, cur.at(), hi),
        decreases hi - cur.at(),
    {
        let f = match cur.field() {
            Ok(f) => f,
            Err(e) => {
                return Err(e);
            },
        };
        if f.num == 1 && f.wire == 2 {
            return Ok(Some(f.start..f.end));
        }
    }
    Ok(None)
}

/// A `KeyValue` as a view, only where the value is a string.
fn parse_key_value(buf: &[u8], window: Range<usize>) -> (r: Result<Option<AttrView>, ParseError>)
    requires
        window.end <= buf@.len(),
    ensures
        match key_value(buf@, window.start as int, window.end as int, None, None) {
            Ok(Some(a)) => r matches Ok(Some(v)) && v.model() == a,
            Ok(None) => r matches Ok(None),
            Err(e) => r == Err::<Option<AttrView>, ParseError>(e),
        },
{
    let ghost lo = window.start as int;
    let ghost hi = window.end as int;
    let mut key: Option<Range<usize>> = None;
    let mut value: Option<Range<usize>> = None;
    let mut cur = WireCursor::new(buf, window.start..window.end);
    while !cur.done()
        invariant
            lo == window.start,
            hi == window.end,
            cur.buffer() == buf@,
            cur.limit() == hi <= buf@.len(),
            key_value(buf@, lo, hi, None, None) == key_value(
                buf@,
                cur.at(),
                hi,
                envelope::span_opt(key),
                envelope::span_opt(value),
            ),
        decreases hi - cur.at(),
    {
        let f = match cur.field() {
            Ok(f) => f,
            Err(e) => {
                return Err(e);
            },
        };
        if f.num == 1 && f.wire == 2 {
            key = Some(f.start..f.end);
        } else if f.num == 2 && f.wire == 2 {
            match any_value_string(buf, f.start..f.end) {
                Ok(v) => {
                    value = v;
                },
                Err(e) => {
                    return Err(e);
                },
            }
        }
    }
    match (key, value) {
        (Some(key), Some(value)) => Ok(Some(AttrView { key, value })),
        _ => Ok(None),
    }
}

/// Resource-level views found once and handed to every record below.
struct ResourceAttrs {
    namespace: Option<Range<usize>>,
    service_name: Option<Range<usize>>,
}

impl ResourceAttrs {
    spec fn model(self) -> ResourceModel {
        ResourceModel {
            namespace: envelope::span_opt(self.namespace),
            service_name: envelope::span_opt(self.service_name),
        }
    }
}

fn copy_range(r: &Option<Range<usize>>) -> (c: Option<Range<usize>>)
    ensures
        c == *r,
{
    match r {
        Some(r) => Some(r.start..r.end),
        None => None,
    }
}

/// The namespace and the service name among a resource's attributes.
fn parse_resource_attrs(buf: &[u8], window: Range<usize>) -> (r: Result<ResourceAttrs, ParseError>)
    requires
        window.end <= buf@.len(),
    ensures
        match resource_attrs(buf@, window.start as int, window.end as int, no_resource()) {
            Ok(m) => r matches Ok(a) && a.model() == m,
            Err(e) => r == Err::<ResourceAttrs, ParseError>(e),
        },
{
    let ghost lo = window.start as int;
    let ghost hi = window.end as int;
    let mut attrs = ResourceAttrs { namespace: None, service_name: None };
    let mut cur = WireCursor::new(buf, window.start..window.end);
    while !cur.done()
        invariant
            lo == window.start,
            hi == window.end,
            cur.buffer() == buf@,
            cur.limit() == hi <= buf@.len(),
            resource_attrs(buf@, lo, hi, no_resource()) == resource_attrs(
                buf@,
                cur.at(),
                hi,
                attrs.model(),
            ),
        decreases hi - cur.at(),
    {
        let f = match cur.field() {
            Ok(f) => f,
            Err(e) => {
                return Err(e);
            },
        };
        if f.num == 1 && f.wire == 2 {
            match parse_key_value(buf, f.start..f.end) {
                Ok(Some(attr)) => {
                    if attr.key.start <= attr.key.end && attr.key.end <= buf.len() {
                        let k = slice_subrange(buf, attr.key.start, attr.key.end);
                        if text::bytes_eq(k, NAMESPACE_KEY.as_bytes()) {
                            attrs.namespace = Some(attr.value);
                        } else if text::bytes_eq(k, SERVICE_KEY.as_bytes()) {
                            attrs.service_name = Some(attr.value);
                        }
                    }
                },
                Ok(None) => {},
                Err(e) => {
                    return Err(e);
                },
            }
        }
    }
    Ok(attrs)
}

fn parse_log_record(buf: &[u8], window: Range<usize>, res: &ResourceAttrs) -> (r: Result<
    RecordView,
    ParseError,
>)
    requires
        window.end <= buf@.len(),
    ensures
        match record_at(buf@, window.start as int, window.end as int, res.model()) {
            Ok(m) => r matches Ok(v) && v.model() == m,
            Err(e) => r == Err::<RecordView, ParseError>(e),
        },
{
    let ghost lo = window.start as int;
    let ghost hi = window.end as int;
    let mut rec = RecordView {
        body: window.start..window.start,
        trace_id: None,
        attrs: AttrList::new(),
        severity_number: None,
        namespace: copy_range(&res.namespace),
        service_name: copy_range(&res.service_name),
    };
    assert(rec.model() =~= blank_record(lo, res.model()));
    let mut cur = WireCursor::new(buf, window.start..window.end);
    while !cur.done()
        invariant
            lo == window.start,
            hi == window.end,
            cur.buffer() == buf@,
            cur.limit() == hi <= buf@.len(),
            record_at(buf@, lo, hi, res.model()) == record_fields(
                buf@,
                cur.at(),
                hi,
                rec.model(),
            ),
        decreases hi - cur.at(),
    {
        let ghost before = rec.model();
        let ghost g = wire::field_at(buf@, cur.at(), hi)->Ok_0;
        let f = match cur.field() {
            Ok(f) => f,
            Err(e) => {
                return Err(e);
            },
        };
        if f.num == 2 && f.wire == 0 {
            rec.severity_number = Some(f.value as i32);
        } else if f.num == 5 && f.wire == 2 {
            match any_value_string(buf, f.start..f.end) {
                Ok(Some(s)) => {
                    rec.body = s;
                },
                Ok(None) => {},
                Err(e) => {
                    return Err(e);
                },
            }
        } else if f.num == 6 && f.wire == 2 {
            match parse_key_value(buf, f.start..f.end) {
                Ok(Some(attr)) => {
                    rec.attrs.append(attr);
                    assert(rec.model().attrs =~= before.attrs.push(attr.model()));
                },
                Ok(None) => {},
                Err(e) => {
                    return Err(e);
                },
            }
        } else if f.num == 9 && f.wire == 2 {
            let len: usize = f.end - f.start;
            if len == 16 || len == 32 {
                rec.trace_id = Some(f.start..f.end);
            }
        }
        assert(record_step(buf@, g, before) == Ok::<RecordModel, ParseError>(rec.model()));
    }
    Ok(rec)
}

fn parse_scope_logs(
    buf: &[u8],
    window: Range<usize>,
    res: &ResourceAttrs,
    out: &mut RecordList,
) -> (r: Result<(), ParseError>)
    requires
        window.end <= buf@.len(),
    ensures
        match scope_records(buf@, window.start as int, window.end as int, res.model()) {
            Ok(rs) => r is Ok && envelope::record_models(final(out)@) == envelope::record_models(
                old(out)@,
            ) + rs,
            Err(e) => r == Err::<(), ParseError>(e) && envelope::record_models(final(out)@)
                == envelope::record_models(old(out)@) + scope_read(
                buf@,
                window.start as int,
                window.end as int,
                res.model(),
            ),
        },
{
    let ghost lo = window.start as int;
    let ghost hi = window.end as int;
    let ghost base = envelope::record_models(out@);
    let ghost mut done = Seq::<RecordModel>::empty();
    let mut cur = WireCursor::new(buf, window.start..window.end);
    proof {
        let all = scope_records(buf@, lo, hi, res.model());
        let found = scope_read(buf@, lo, hi, res.model());
        assert(done + found =~= found);
        assert(all matches Ok(rs) ==> done + rs =~= rs);
        assert(base + done =~= base);
    }
    while !cur.done()
        invariant
            lo == window.start,
            hi == window.end,
            cur.buffer() == buf@,
            cur.limit() == hi <= buf@.len(),
            base == envelope::record_models(old(out)@),
            envelope::record_models(out@) == base + done,
            scope_records(buf@, lo, hi, res.model()) == joined(
                done,
                scope_records(buf@, cur.at(), hi, res.model()),
            ),
            scope_read(buf@, lo, hi, res.model()) == done + scope_read(
                buf@,
                cur.at(),
                hi,
                res.model(),
            ),
        decreases hi - cur.at(),
    {
        let f = match cur.field() {
            Ok(f) => f,
            Err(e) => {
                return Err(e);
            },
        };
        if f.num == 2 && f.wire == 2 {
            match parse_log_record(buf, f.start..f.end, res) {
                Ok(rec) => {
                    let ghost before = out@;
                    out.append(rec);
                    proof {
                        let rest = scope_records(buf@, cur.at(), hi, res.model());
                        let one = seq![rec.model()];
                        let more = scope_read(buf@, cur.at(), hi, res.model());
                        assert(done + (one + more) =~= (done + one) + more);
                        assert(rest matches Ok(rs) ==> done + (one + rs) =~= (done + one) + rs);
                        assert(envelope::record_models(out@) =~= envelope::record_models(before)
                            + one);
                        assert((base + done) + one =~= base + (done + one));
                        done = done + one;
                    }
                },
                Err(e) => {
                    return Err(e);
                },
            }
        }
    }
    proof {
        assert(done + Seq::<RecordModel>::empty() =~= done);
    }
    Ok(())
}

/// The offsets of a sequence of windows.
spec fn window_spans(ws: Seq<Range<usize>>) -> Seq<(int, int)> {
    ws.map_values(|w: Range<usize>| envelope::span(w))
}

/// Parses the `ResourceLogs` in a window of a buffer, appending one view per
/// record.
pub fn parse_resource_logs(buf: &[u8], window: Range<usize>, out: &mut RecordList) -> (r: Result<
    (),
    ParseError,
>)
    requires
        window.end <= buf@.len(),
    ensures
        match resource_records(buf@, window.start as int, window.end as int) {
            Ok(rs) => r is Ok && envelope::record_models(final(out)@) == envelope::record_models(
                old(out)@,
            ) + rs,
            Err(e) => r == Err::<(), ParseError>(e) && envelope::record_models(final(out)@)
                == envelope::record_models(old(out)@) + resource_read(
                buf@,
                window.start as int,
                window.end as int,
            ),
        },
{
    let ghost lo = window.start as int;
    let ghost hi = window.end as int;
    let ghost base = envelope::record_models(out@);
    let mut res = ResourceAttrs { namespace: None, service_name: None };
    let mut scopes = WindowList::inline();
    assert(window_spans(scopes@) =~= Seq::<(int, int)>::empty());
    let mut cur = WireCursor::new(buf, window.start..window.end);
    while !cur.done()
        invariant
            lo == window.start,
            hi == window.end,
            cur.buffer() == buf@,
            cur.limit() == hi <= buf@.len(),
            forall|i: int| 0 <= i < scopes@.len() ==> (#[trigger] scopes@[i]).end <= buf@.len(),
            resource_fields(buf@, lo, hi, no_resource(), Seq::empty()) == resource_fields(
                buf@,
                cur.at(),
                hi,
                res.model(),
                window_spans(scopes@),
            ),
        decreases hi - cur.at(),
    {
        let f = match cur.field() {
            Ok(f) => f,
            Err(e) => {
                return Err(e);
            },
        };
        if f.num == 1 && f.wire == 2 {
            match parse_resource_attrs(buf, f.start..f.end) {
                Ok(attrs) => {
                    res = attrs;
                },
                Err(e) => {
                    return Err(e);
                },
            }
        } else if f.num == 2 && f.wire == 2 {
            let ghost before = scopes@;
            scopes.append(f.start..f.end);
            assert(window_spans(scopes@) =~= window_spans(before).push((f.start as int, f.end as int)));
        }
    }
    let scopes = scopes.items();
    let ghost spans = window_spans(scopes@);
    let ghost mut done = Seq::<RecordModel>::empty();
    proof {
        assert(spans.skip(0) =~= spans);
        let all = scopes_records(buf@, spans, res.model());
        let found = scopes_read(buf@, spans, res.model());
        assert(done + found =~= found);
        assert(all matches Ok(rs) ==> done + rs =~= rs);
        assert(base + done =~= base);
    }
    let mut i: usize = 0;
    while i < scopes.len()
        invariant
            i <= scopes@.len(),
            spans == window_spans(scopes@),
            lo == window.start,
            hi == window.end,
            base == envelope::record_models(old(out)@),
            forall|i: int| 0 <= i < scopes@.len() ==> (#[trigger] scopes@[i]).end <= buf@.len(),
            envelope::record_models(out@) == base + done,
            resource_records(buf@, lo, hi) == joined(
                done,
                scopes_records(buf@, spans.skip(i as int), res.model()),
            ),
            resource_read(buf@, lo, hi) == done + scopes_read(
                buf@,
                spans.skip(i as int),
                res.model(),
            ),
        decreases scopes@.len() - i,
    {
        let w = &scopes[i];
        proof {
            assert(spans.skip(i as int).drop_first() =~= spans.skip(i + 1));
            assert(spans.skip(i as int)[0] == envelope::span(*w));
        }
        match parse_scope_logs(buf, w.start..w.end, &res, out) {
            Ok(()) => {
                proof {
                    let one = scope_records(buf@, w.start as int, w.end as int, res.model())->Ok_0;
                    let rest = scopes_records(buf@, spans.skip(i + 1), res.model());
                    let more = scopes_read(buf@, spans.skip(i + 1), res.model());
                    assert(done + (one + more) =~= (done + one) + more);
                    assert(rest matches Ok(rs) ==> done + (one + rs) =~= (done + one) + rs);
                    assert((base + done) + one =~= base + (done + one));
                    done = done + one;
                }
            },
            Err(e) => {
                return Err(e);
            },
        }
        i = i + 1;
    }
    proof {
        assert(done + Seq::<RecordModel>::empty() =~= done);
    }
    Ok(())
}

/// Parse a whole `ExportLogsServiceRequest`, appending one view per record.
/// Whatever the buffer holds, every appended view lies in it. On an error the
/// views of the records before it have been appended; the caller discards
/// `out`.
pub fn parse_export_logs_request(buf: &[u8], out: &mut RecordList) -> (r: Result<(), ParseError>)
    ensures
        match parsed(buf@) {
            Ok(rs) => r is Ok && envelope::record_models(final(out)@) == envelope::record_models(
                old(out)@,
            ) + rs,
            Err(e) => r == Err::<(), ParseError>(e) && envelope::record_models(final(out)@)
                == envelope::record_models(old(out)@) + read(buf@),
        },
        envelope::record_models(old(out)@).is_prefix_of(envelope::record_models(final(out)@)),
        fidelity::all_inside(
            buf@,
            envelope::record_models(final(out)@).skip(old(out)@.len() as int),
        ),
{
    let ghost hi = buf@.len() as int;
    let ghost base = envelope::record_models(out@);
    let ghost mut done = Seq::<RecordModel>::empty();
    let mut cur = WireCursor::new(buf, 0..buf.len());
    proof {
        assert(parsed(buf@) matches Ok(rs) ==> done + rs =~= rs);
        assert(done + read(buf@) =~= read(buf@));
        fidelity::law_views_lie_in_the_request(buf@);
        assert(base + done =~= base);
    }
    while !cur.done()
        invariant
            cur.buffer() == buf@,
            cur.limit() == hi == buf@.len(),
            base == envelope::record_models(old(out)@),
            envelope::record_models(out@) == base + done,
            parsed(buf@) == joined(done, request_records(buf@, cur.at(), hi)),
            read(buf@) == done + request_read(buf@, cur.at(), hi),
            fidelity::all_inside(buf@, read(buf@)),
        decreases hi - cur.at(),
    {
        let f = match cur.field() {
            Ok(f) => f,
            Err(e) => {
                return Err(e);
            },
        };
        if f.num == 1 && f.wire == 2 {
            match parse_resource_logs(buf, f.start..f.end, out) {
                Ok(()) => {
                    proof {
                        let one = resource_records(buf@, f.start as int, f.end as int)->Ok_0;
                        let rest = request_records(buf@, cur.at(), hi);
                        let more = request_read(buf@, cur.at(), hi);
                        assert(done + (one + more) =~= (done + one) + more);
                        assert(rest matches Ok(rs) ==> done + (one + rs) =~= (done + one) + rs);
                        assert((base + done) + one =~= base + (done + one));
                        done = done + one;
                    }
                },
                Err(e) => {
                    proof {
                        let part = resource_read(buf@, f.start as int, f.end as int);
                        assert((base + done) + part =~= base + read(buf@));
                        assert((base + read(buf@)).skip(base.len() as int) =~= read(buf@));
                    }
                    return Err(e);
                },
            }
        }
    }
    proof {
        assert(done + Seq::<RecordModel>::empty() =~= done);
        assert((base + done).skip(base.len() as int) =~= done);
    }
    Ok(())
}

} // verus!
