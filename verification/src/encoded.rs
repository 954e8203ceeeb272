//! What encoded messages parse to.
//!
//! A message grows field by field. Each law says what one more field, as an
//! encoder writes it, adds to what was parsed before. A buffer is written as
//! `b`, the message stands in `b[lo..mid]`, and the new field in `b[mid..hi]`.
//! Tags are written out as bytes.

use crate::envelope::RecordModel;
use crate::export;
use crate::fidelity;
use crate::otlp;
use crate::otlp::ResourceModel;
use crate::wire;
use crate::wire::ParseError;
use vstd::prelude::*;

verus! {

/// One whole field of any wire type, as an encoder writes it.
pub open spec fn one_field(s: Seq<u8>, num: u32, wire: u8) -> bool {
    let tag = export::varint_bytes(num as nat * 8 + wire as nat);
    ||| wire == 0 && exists|n: u64| s == tag + #[trigger] export::varint_bytes(n as nat)
    ||| wire == 1 && exists|p: Seq<u8>| p.len() == 8 && s == #[trigger] (tag + p)
    ||| wire == 2 && exists|p: Seq<u8>|
        s == tag + #[trigger] export::varint_bytes(p.len()) + p
    ||| wire == 5 && exists|p: Seq<u8>| p.len() == 4 && s == #[trigger] (tag + p)
}

/// The digits of a written number: seven bits a byte, the lowest first, and
/// the high bit on all bytes but the last.
pub proof fn law_varints_are_written_in_digits(v: nat)
    ensures
        v < 128 ==> export::varint_bytes(v) == seq![v as u8],
        v >= 128 ==> {
            let s = export::varint_bytes(v);
            &&& s.len() == export::varint_bytes(v / 128).len() + 1
            &&& s[0] == v % 128 + 128
            &&& s.skip(1) == export::varint_bytes(v / 128)
        },
{
    if v >= 128 {
        let rest = export::varint_bytes(v / 128);
        assert(export::varint_bytes(v).skip(1) =~= rest);
    }
}

/// A byte below 128 is a number of its own.
pub proof fn law_a_last_digit_is_its_value(b: Seq<u8>, pos: int, end: int)
    requires
        0 <= pos < end <= b.len(),
        b[pos] < 128,
    ensures
        wire::varint_at(b, pos, end) == Ok::<(u64, int), ParseError>((b[pos] as u64, pos + 1)),
{
    assert(wire::varint_num(b, pos + 1, pos + 1) == 0);
}

/// A byte of 128 or more adds its low seven bits below the digits that follow.
pub proof fn law_digits_add_up(b: Seq<u8>, pos: int, end: int)
    requires
        0 <= pos < end <= b.len(),
        b[pos] >= 128,
        wire::varint_at(b, pos + 1, end) is Ok,
        wire::varint_at(b, pos + 1, end)->Ok_0.1 - pos <= 10,
    ensures
        ({
            let (rest, next) = wire::varint_at(b, pos + 1, end)->Ok_0;
            wire::varint_at(b, pos, end) == Ok::<(u64, int), ParseError>(
                (((b[pos] - 128 + 128 * rest) % 0x1_0000_0000_0000_0000) as u64, next),
            )
        }),
{
    let (rest, next) = wire::varint_at(b, pos + 1, end)->Ok_0;
    let m: int = 0x1_0000_0000_0000_0000;
    wire::lemma_varint_stop(b, pos + 1, end);
    let tail = wire::varint_num(b, pos + 1, next) as int;
    let low = b[pos] - 128;
    assert(wire::varint_num(b, pos, next) == low + 128 * tail);
    assert(128 * tail - 128 * (tail % m) == m * (128 * (tail / m))) by (nonlinear_arith)
        requires
            m == 0x1_0000_0000_0000_0000,
            tail == m * (tail / m) + tail % m,
    ;
    assert((low + 128 * tail) % m == (low + 128 * (tail % m)) % m) by {
        vstd::arithmetic::div_mod::lemma_mod_multiples_vanish(
            128 * (tail / m),
            low + 128 * (tail % m),
            m,
        );
    }
}

/// A number of more than ten bytes is refused, and so is one that does not
/// end in its window.
pub proof fn law_endless_varints_are_refused(b: Seq<u8>, pos: int, end: int)
    requires
        0 <= pos <= end <= b.len(),
    ensures
        (pos + 10 < end && forall|i: int| pos <= i < pos + 10 ==> #[trigger] b[i] >= 128)
            ==> wire::varint_at(b, pos, end) == Err::<(u64, int), ParseError>(
            ParseError::VarintOverflow(pos as usize),
        ),
        (end - pos <= 10 && forall|i: int| pos <= i < end ==> #[trigger] b[i] >= 128)
            ==> wire::varint_at(b, pos, end) == Err::<(u64, int), ParseError>(
            ParseError::Truncated(end as usize),
        ),
{
    wire::lemma_varint_stop(b, pos, end);
    if let Some(stop) = wire::varint_stop(b, pos, end) {
        if pos + 10 < end && forall|i: int| pos <= i < pos + 10 ==> #[trigger] b[i] >= 128 {
            if stop - pos <= 10 {
                assert(b[stop - 1] >= 128);
            }
        }
        if end - pos <= 10 && forall|i: int| pos <= i < end ==> #[trigger] b[i] >= 128 {
            assert(b[stop - 1] >= 128);
        }
    }
}

/// A field reads the same in a longer window.
pub proof fn lemma_field_extends(b: Seq<u8>, pos: int, mid: int, hi: int)
    requires
        0 <= pos,
        mid <= hi <= b.len(),
        wire::field_at(b, pos, mid) is Ok,
    ensures
        wire::field_at(b, pos, hi) == wire::field_at(b, pos, mid),
        pos < wire::field_at(b, pos, mid)->Ok_0.lo,
        wire::field_at(b, pos, mid)->Ok_0.lo <= wire::field_at(b, pos, mid)->Ok_0.next <= mid,
{
    wire::lemma_field_bounds(b, pos, mid);
    fidelity::lemma_field_moves(b, pos, mid, b, pos, hi);
}

/// What a buffer holds from `mid` to `hi`.
proof fn lemma_holds(b: Seq<u8>, mid: int, hi: int, s: Seq<u8>)
    requires
        0 <= mid <= hi <= b.len(),
        b.subrange(mid, hi) == s,
    ensures
        fidelity::holds(b, mid, s),
        hi == mid + s.len(),
{
}

/// A length-delimited field reads back as its payload.
pub proof fn law_delimited_fields_read_back(
    b: Seq<u8>,
    mid: int,
    hi: int,
    num: u32,
    payload: Seq<u8>,
)
    requires
        0 <= mid <= hi <= b.len() <= usize::MAX,
        1 <= num < 16,
        b.subrange(mid, hi) == seq![(num * 8 + 2) as u8] + export::varint_bytes(payload.len())
            + payload,
    ensures
        wire::field_at(b, mid, hi) == Ok::<wire::Field, ParseError>(
            wire::Field { num, wire: 2, value: 0, lo: hi - payload.len(), next: hi },
        ),
        b.subrange(hi - payload.len(), hi) == payload,
        hi - payload.len() > mid,
{
    let tag = seq![(num * 8 + 2) as u8];
    let size = export::varint_bytes(payload.len());
    assert(export::varint_bytes((num * 8 + 2) as nat) =~= tag);
    lemma_holds(b, mid, hi, tag + size + payload);
    let h = export::header(num as nat, payload.len());
    assert(h =~= tag + size);
    assert(tag + size + payload =~= h + payload);
    fidelity::lemma_holds_parts(b, mid, h, payload);
    fidelity::lemma_header(b, mid, hi, num, payload.len());
}

/// Any whole field reads back under its number and wire type, and ends where
/// it ends.
pub proof fn law_fields_read_back(b: Seq<u8>, mid: int, hi: int, num: u32, wire: u8)
    requires
        0 <= mid <= hi <= b.len() <= usize::MAX,
        one_field(b.subrange(mid, hi), num, wire),
    ensures
        wire::field_at(b, mid, hi) is Ok,
        wire::field_at(b, mid, hi)->Ok_0.num == num,
        wire::field_at(b, mid, hi)->Ok_0.wire == wire,
        wire::field_at(b, mid, hi)->Ok_0.next == hi,
{
    let s = b.subrange(mid, hi);
    let t = (num as nat * 8 + wire as nat) as u64;
    let tag = export::varint_bytes(t as nat);
    assert(t % 8 == wire);
    assert((t / 8) % 0x1_0000_0000 == num);
    reveal(wire::field_at);
    if wire == 0 {
        let n = choose|n: u64| s == tag + #[trigger] export::varint_bytes(n as nat);
        lemma_holds(b, mid, hi, tag + export::varint_bytes(n as nat));
        fidelity::lemma_holds_parts(b, mid, tag, export::varint_bytes(n as nat));
        fidelity::law_varints_round_trip(t, b, mid, hi);
        fidelity::law_varints_round_trip(n, b, mid + tag.len(), hi);
    } else if wire == 2 {
        let p = choose|p: Seq<u8>| s == tag + #[trigger] export::varint_bytes(p.len()) + p;
        let size = export::varint_bytes(p.len());
        lemma_holds(b, mid, hi, (tag + size) + p);
        fidelity::lemma_holds_parts(b, mid, tag + size, p);
        fidelity::lemma_holds_parts(b, mid, tag, size);
        fidelity::law_varints_round_trip(t, b, mid, hi);
        fidelity::law_varints_round_trip(p.len() as u64, b, mid + tag.len(), hi);
    } else {
        let p = choose|p: Seq<u8>|
            (wire == 1 && p.len() == 8 || wire == 5 && p.len() == 4) && s == #[trigger] (tag + p);
        lemma_holds(b, mid, hi, tag + p);
        fidelity::lemma_holds_parts(b, mid, tag, p);
        fidelity::law_varints_round_trip(t, b, mid, hi);
    }
}

/// A varint field reads back as its number.
pub proof fn law_varint_fields_read_back(b: Seq<u8>, mid: int, hi: int, num: u32, n: u64)
    requires
        0 <= mid <= hi <= b.len() <= usize::MAX,
        1 <= num < 16,
        b.subrange(mid, hi) == seq![(num * 8) as u8] + export::varint_bytes(n as nat),
    ensures
        wire::field_at(b, mid, hi) is Ok,
        ({
            let f = wire::field_at(b, mid, hi)->Ok_0;
            f.num == num && f.wire == 0 && f.value == n && f.next == hi
        }),
{
    let t = (num * 8) as u64;
    let tag = seq![t as u8];
    let digits = export::varint_bytes(n as nat);
    assert(export::varint_bytes(t as nat) =~= tag);
    lemma_holds(b, mid, hi, tag + digits);
    fidelity::lemma_holds_parts(b, mid, tag, digits);
    fidelity::law_varints_round_trip(t, b, mid, hi);
    fidelity::law_varints_round_trip(n, b, mid + 1, hi);
    reveal(wire::field_at);
}

/// A length that reaches past the window, and a wire type that is not used,
/// are refused.
pub proof fn law_bad_fields_are_refused(b: Seq<u8>, mid: int, hi: int, num: u32, size: u64)
    requires
        0 <= mid < hi <= b.len() <= usize::MAX,
        1 <= num < 16,
    ensures
        (fidelity::holds(b, mid, seq![(num * 8 + 2) as u8] + export::varint_bytes(size as nat))
            && mid + 1 + export::varint_bytes(size as nat).len() <= hi && mid + 1
            + export::varint_bytes(size as nat).len() + size > hi) ==> wire::field_at(b, mid, hi)
            == Err::<wire::Field, ParseError>(ParseError::LengthOverrun((mid + 1) as usize)),
        (b[mid] < 128 && (b[mid] % 8 == 3 || b[mid] % 8 == 4 || b[mid] % 8 == 6 || b[mid] % 8 == 7))
            ==> wire::field_at(b, mid, hi) == Err::<wire::Field, ParseError>(
            ParseError::UnsupportedWire { wire: (b[mid] % 8) as u8, offset: (mid + 1) as usize },
        ),
        (b[mid] < 128 && b[mid] % 8 == 1 && mid + 9 > hi) ==> wire::field_at(b, mid, hi) == Err::<
            wire::Field,
            ParseError,
        >(ParseError::Truncated((mid + 1) as usize)),
        (b[mid] < 128 && b[mid] % 8 == 5 && mid + 5 > hi) ==> wire::field_at(b, mid, hi) == Err::<
            wire::Field,
            ParseError,
        >(ParseError::Truncated((mid + 1) as usize)),
{
    reveal(wire::field_at);
    if b[mid] < 128 {
        law_a_last_digit_is_its_value(b, mid, hi);
    }
    let tag = seq![(num * 8 + 2) as u8];
    let digits = export::varint_bytes(size as nat);
    if fidelity::holds(b, mid, tag + digits) && mid + 1 + digits.len() <= hi && mid + 1
        + digits.len() + size > hi {
        fidelity::lemma_holds_parts(b, mid, tag, digits);
        assert(b.subrange(mid, mid + 1)[0] == b[mid]);
        law_a_last_digit_is_its_value(b, mid, hi);
        fidelity::law_varints_round_trip(size, b, mid + 1, hi);
    }
}

// ---------------------------------------------------------------------------
// Values.

/// A value is a string where its first string field is one, whatever stands
/// before or behind it.
pub proof fn law_string_values_are_strings(b: Seq<u8>, lo: int, hi: int, text: Seq<u8>)
    requires
        0 <= lo <= hi <= b.len() <= usize::MAX,
        fidelity::holds(b, lo, seq![0x0Au8] + export::varint_bytes(text.len()) + text),
        lo + 1 + export::varint_bytes(text.len()).len() + text.len() <= hi,
    ensures
        otlp::any_string(b, lo, hi) matches Ok(Some(at)) && b.subrange(at.0, at.1) == text
            && lo < at.0 <= at.1 <= hi,
{
    let whole = seq![0x0Au8] + export::varint_bytes(text.len()) + text;
    let end = lo + whole.len();
    assert(b.subrange(lo, end) == whole);
    law_delimited_fields_read_back(b, lo, end, 1, text);
    lemma_field_extends(b, lo, end, hi);
}

/// A field of a value that is no string is passed over, and a value without a
/// field is no string.
pub proof fn law_other_values_are_passed_over(
    b: Seq<u8>,
    lo: int,
    mid: int,
    hi: int,
    num: u32,
    wire: u8,
)
    requires
        0 <= lo <= mid <= hi <= b.len() <= usize::MAX,
        one_field(b.subrange(lo, mid), num, wire),
        num != 1 || wire != 2,
    ensures
        otlp::any_string(b, lo, hi) == otlp::any_string(b, mid, hi),
        otlp::any_string(b, hi, hi) == Ok::<Option<(int, int)>, ParseError>(None),
{
    law_fields_read_back(b, lo, mid, num, wire);
    lemma_field_extends(b, lo, mid, hi);
}

// ---------------------------------------------------------------------------
// Attributes.

/// A string value as an encoder writes it.
pub open spec fn string_value(text: Seq<u8>) -> Seq<u8> {
    seq![0x0Au8] + export::varint_bytes(text.len()) + text
}

proof fn lemma_key_value_extends(
    b: Seq<u8>,
    pos: int,
    mid: int,
    hi: int,
    key: Option<(int, int)>,
    value: Option<(int, int)>,
    key2: Option<(int, int)>,
    value2: Option<(int, int)>,
)
    requires
        0 <= pos <= mid <= hi <= b.len(),
        ({
            let f = wire::field_at(b, pos, mid)->Ok_0;
            &&& wire::field_at(b, pos, mid) is Ok
            &&& f.next == mid
            &&& if f.num == 1 && f.wire == 2 {
                key2 == Some((f.lo, f.next)) && value2 == value
            } else if f.num == 2 && f.wire == 2 {
                key2 == key && otlp::any_string(b, f.lo, f.next) == Ok::<
                    Option<(int, int)>,
                    ParseError,
                >(value2)
            } else {
                key2 == key && value2 == value
            }
        }),
        pos < mid,
    ensures
        otlp::key_value(b, pos, hi, key, value) == otlp::key_value(b, mid, hi, key2, value2),
{
    lemma_field_extends(b, pos, mid, hi);
}

/// A key and a string value are an attribute, in either order.
pub proof fn law_key_and_string_are_an_attribute(
    b: Seq<u8>,
    lo: int,
    mid: int,
    hi: int,
    key: Seq<u8>,
    text: Seq<u8>,
)
    requires
        0 <= lo <= mid <= hi <= b.len() <= usize::MAX,
        ({
            let k = seq![0x0Au8] + export::varint_bytes(key.len()) + key;
            let v = seq![0x12u8] + export::varint_bytes(string_value(text).len()) + string_value(
                text,
            );
            ||| b.subrange(lo, mid) == k && b.subrange(mid, hi) == v
            ||| b.subrange(lo, mid) == v && b.subrange(mid, hi) == k
        }),
    ensures
        otlp::key_value(b, lo, hi, None, None) matches Ok(Some((k, v))) && b.subrange(k.0, k.1)
            == key && b.subrange(v.0, v.1) == text && lo <= k.0 <= k.1 <= hi && lo <= v.0 <= v.1
            <= hi,
{
    let k = seq![0x0Au8] + export::varint_bytes(key.len()) + key;
    let v = seq![0x12u8] + export::varint_bytes(string_value(text).len()) + string_value(text);
    if b.subrange(lo, mid) == k && b.subrange(mid, hi) == v {
        law_delimited_fields_read_back(b, lo, mid, 1, key);
        law_delimited_fields_read_back(b, mid, hi, 2, string_value(text));
        let at = hi - string_value(text).len();
        law_string_values_are_strings(b, at, hi, text);
        let found = otlp::any_string(b, at, hi)->Ok_0;
        let ks = Some((mid - key.len(), mid));
        lemma_key_value_extends(b, lo, mid, hi, None, None, ks, None);
        lemma_key_value_extends(b, mid, hi, hi, ks, None, ks, found);
    } else {
        law_delimited_fields_read_back(b, lo, mid, 2, string_value(text));
        law_delimited_fields_read_back(b, mid, hi, 1, key);
        let at = mid - string_value(text).len();
        law_string_values_are_strings(b, at, mid, text);
        let found = otlp::any_string(b, at, mid)->Ok_0;
        let ks = Some((hi - key.len(), hi));
        lemma_key_value_extends(b, lo, mid, hi, None, None, None, found);
        lemma_key_value_extends(b, mid, hi, hi, None, found, ks, found);
    }
}

/// A key with a value that is no string is no attribute.
pub proof fn law_other_values_make_no_attribute(
    b: Seq<u8>,
    lo: int,
    mid: int,
    hi: int,
    key: Seq<u8>,
    value: Seq<u8>,
    num: u32,
    wire: u8,
)
    requires
        0 <= lo <= mid <= hi <= b.len() <= usize::MAX,
        b.subrange(lo, mid) == seq![0x0Au8] + export::varint_bytes(key.len()) + key,
        b.subrange(mid, hi) == seq![0x12u8] + export::varint_bytes(value.len()) + value,
        one_field(value, num, wire),
        num != 1 || wire != 2,
    ensures
        otlp::key_value(b, lo, hi, None, None) == Ok::<
            Option<((int, int), (int, int))>,
            ParseError,
        >(None),
{
    law_delimited_fields_read_back(b, lo, mid, 1, key);
    law_delimited_fields_read_back(b, mid, hi, 2, value);
    let at = hi - value.len();
    law_other_values_are_passed_over(b, at, hi, hi, num, wire);
    let ks = Some((mid - key.len(), mid));
    lemma_key_value_extends(b, lo, mid, hi, None, None, ks, None);
    lemma_key_value_extends(b, mid, hi, hi, ks, None, ks, None);
}

/// A pair is read field by field: a key field sets the key, a value field sets
/// the value to its string or to none, any other field is passed over. In the
/// end it is an attribute where both are set.
pub proof fn law_pairs_are_read_field_by_field(
    b: Seq<u8>,
    lo: int,
    mid: int,
    hi: int,
    payload: Seq<u8>,
    num: u32,
    wire: u8,
    key: Option<(int, int)>,
    value: Option<(int, int)>,
)
    requires
        0 <= lo < mid <= hi <= b.len() <= usize::MAX,
    ensures
        b.subrange(lo, mid) == seq![0x0Au8] + export::varint_bytes(payload.len()) + payload
            ==> otlp::key_value(b, lo, hi, key, value) == otlp::key_value(
            b,
            mid,
            hi,
            Some((mid - payload.len(), mid)),
            value,
        ),
        b.subrange(lo, mid) == seq![0x12u8] + export::varint_bytes(payload.len()) + payload
            ==> otlp::key_value(b, lo, hi, key, value) == (match otlp::any_string(
            b,
            mid - payload.len(),
            mid,
        ) {
            Ok(v) => otlp::key_value(b, mid, hi, key, v),
            Err(e) => Err(e),
        }),
        one_field(b.subrange(lo, mid), num, wire) && !(wire == 2 && (num == 1 || num == 2))
            ==> otlp::key_value(b, lo, hi, key, value) == otlp::key_value(b, mid, hi, key, value),
        otlp::key_value(b, hi, hi, key, value) == Ok::<
            Option<((int, int), (int, int))>,
            ParseError,
        >(
            if key is Some && value is Some {
                Some((key->0, value->0))
            } else {
                None
            },
        ),
{
    if b.subrange(lo, mid) == seq![0x0Au8] + export::varint_bytes(payload.len()) + payload {
        law_delimited_fields_read_back(b, lo, mid, 1, payload);
        lemma_field_extends(b, lo, mid, hi);
    }
    if b.subrange(lo, mid) == seq![0x12u8] + export::varint_bytes(payload.len()) + payload {
        law_delimited_fields_read_back(b, lo, mid, 2, payload);
        lemma_field_extends(b, lo, mid, hi);
    }
    if one_field(b.subrange(lo, mid), num, wire) && !(wire == 2 && (num == 1 || num == 2)) {
        law_fields_read_back(b, lo, mid, num, wire);
        lemma_field_extends(b, lo, mid, hi);
    }
}

// ---------------------------------------------------------------------------
// Records.

proof fn lemma_record_extends(b: Seq<u8>, pos: int, mid: int, hi: int, acc: RecordModel)
    requires
        0 <= pos <= mid <= hi <= b.len(),
        otlp::record_fields(b, pos, mid, acc) is Ok,
    ensures
        otlp::record_fields(b, pos, hi, acc) == otlp::record_fields(
            b,
            mid,
            hi,
            otlp::record_fields(b, pos, mid, acc)->Ok_0,
        ),
    decreases mid - pos,
{
    if pos < mid {
        lemma_field_extends(b, pos, mid, hi);
        let f = wire::field_at(b, pos, mid)->Ok_0;
        lemma_record_extends(b, f.next, mid, hi, otlp::record_step(b, f, acc)->Ok_0);
    }
}

/// A record to which one more field was added.
proof fn lemma_record_grows(b: Seq<u8>, lo: int, mid: int, hi: int, res: ResourceModel)
    requires
        0 <= lo <= mid <= hi <= b.len(),
        mid < hi,
        otlp::record_at(b, lo, mid, res) is Ok,
        wire::field_at(b, mid, hi) is Ok,
        wire::field_at(b, mid, hi)->Ok_0.next == hi,
    ensures
        otlp::record_at(b, lo, hi, res) == otlp::record_step(
            b,
            wire::field_at(b, mid, hi)->Ok_0,
            otlp::record_at(b, lo, mid, res)->Ok_0,
        ),
{
    lemma_record_extends(b, lo, mid, hi, otlp::blank_record(lo, res));
    reveal_with_fuel(otlp::record_fields, 2);
}

/// A record without a field says nothing of its own: an empty body, no trace
/// id, no attribute, no severity. It has the namespace and the service name of
/// its resource.
pub proof fn law_empty_record(b: Seq<u8>, lo: int, res: ResourceModel)
    ensures
        otlp::record_at(b, lo, lo, res) matches Ok(x) && x.body == (lo, lo) && x.trace_id is None
            && x.attrs.len() == 0 && x.severity_number is None && x.namespace == res.namespace
            && x.service_name == res.service_name,
{
}

/// A severity field sets the severity to its number and leaves everything
/// else as it was.
pub proof fn law_severity_is_read(
    b: Seq<u8>,
    lo: int,
    mid: int,
    hi: int,
    res: ResourceModel,
    n: u64,
)
    requires
        0 <= lo <= mid <= hi <= b.len() <= usize::MAX,
        otlp::record_at(b, lo, mid, res) is Ok,
        n <= i32::MAX,
        b.subrange(mid, hi) == seq![0x10u8] + export::varint_bytes(n as nat),
    ensures
        otlp::record_at(b, lo, hi, res) == Ok::<RecordModel, ParseError>(
            RecordModel {
                severity_number: Some(n as i32),
                ..otlp::record_at(b, lo, mid, res)->Ok_0
            },
        ),
{
    law_varint_fields_read_back(b, mid, hi, 2, n);
    wire::lemma_field_bounds(b, mid, hi);
    lemma_record_grows(b, lo, mid, hi, res);
}

/// A body field with a string sets the body to that string and leaves
/// everything else as it was.
pub proof fn law_body_is_read(
    b: Seq<u8>,
    lo: int,
    mid: int,
    hi: int,
    res: ResourceModel,
    text: Seq<u8>,
)
    requires
        0 <= lo <= mid <= hi <= b.len() <= usize::MAX,
        otlp::record_at(b, lo, mid, res) is Ok,
        b.subrange(mid, hi) == seq![0x2Au8] + export::varint_bytes(string_value(text).len())
            + string_value(text),
    ensures
        otlp::record_at(b, lo, hi, res) matches Ok(x) && x == (RecordModel {
            body: x.body,
            ..otlp::record_at(b, lo, mid, res)->Ok_0
        }) && 0 <= x.body.0 <= x.body.1 <= b.len() && b.subrange(x.body.0, x.body.1) == text,
{
    law_delimited_fields_read_back(b, mid, hi, 5, string_value(text));
    law_string_values_are_strings(b, hi - string_value(text).len(), hi, text);
    lemma_record_grows(b, lo, mid, hi, res);
}

/// A body that is no string leaves the record as it was.
pub proof fn law_other_bodies_are_passed_over(
    b: Seq<u8>,
    lo: int,
    mid: int,
    hi: int,
    res: ResourceModel,
    value: Seq<u8>,
    num: u32,
    wire: u8,
)
    requires
        0 <= lo <= mid <= hi <= b.len() <= usize::MAX,
        otlp::record_at(b, lo, mid, res) is Ok,
        b.subrange(mid, hi) == seq![0x2Au8] + export::varint_bytes(value.len()) + value,
        one_field(value, num, wire),
        num != 1 || wire != 2,
    ensures
        otlp::record_at(b, lo, hi, res) == otlp::record_at(b, lo, mid, res),
{
    law_delimited_fields_read_back(b, mid, hi, 5, value);
    law_other_values_are_passed_over(b, hi - value.len(), hi, hi, num, wire);
    lemma_record_grows(b, lo, mid, hi, res);
}

/// An attribute field with a string value adds that attribute behind those
/// that were there and leaves everything else as it was.
pub proof fn law_attributes_are_read(
    b: Seq<u8>,
    lo: int,
    mid: int,
    hi: int,
    res: ResourceModel,
    key: Seq<u8>,
    text: Seq<u8>,
)
    requires
        0 <= lo <= mid <= hi <= b.len() <= usize::MAX,
        otlp::record_at(b, lo, mid, res) is Ok,
        ({
            let value = seq![0x12u8] + export::varint_bytes(string_value(text).len())
                + string_value(text);
            let pair = (seq![0x0Au8] + export::varint_bytes(key.len()) + key) + value;
            b.subrange(mid, hi) == seq![0x32u8] + export::varint_bytes(pair.len()) + pair
        }),
    ensures
        ({
            let before = otlp::record_at(b, lo, mid, res)->Ok_0;
            otlp::record_at(b, lo, hi, res) matches Ok(x) && x.attrs.len() == before.attrs.len() + 1
                && x == (RecordModel {
                attrs: before.attrs.push(x.attrs[before.attrs.len() as int]),
                ..before
            }) && ({
                let (k, v) = x.attrs[before.attrs.len() as int];
                0 <= k.0 <= k.1 <= b.len() && 0 <= v.0 <= v.1 <= b.len() && b.subrange(k.0, k.1)
                    == key && b.subrange(v.0, v.1) == text
            })
        }),
{
    let head = seq![0x0Au8] + export::varint_bytes(key.len()) + key;
    let value = seq![0x12u8] + export::varint_bytes(string_value(text).len()) + string_value(text);
    let pair = head + value;
    law_delimited_fields_read_back(b, mid, hi, 6, pair);
    let at = hi - pair.len();
    lemma_holds(b, at, hi, head + value);
    fidelity::lemma_holds_parts(b, at, head, value);
    law_key_and_string_are_an_attribute(b, at, at + head.len(), hi, key, text);
    lemma_record_grows(b, lo, mid, hi, res);
    let before = otlp::record_at(b, lo, mid, res)->Ok_0;
    let x = otlp::record_at(b, lo, hi, res)->Ok_0;
    let a = otlp::key_value(b, at, hi, None, None)->Ok_0->0;
    assert(x.attrs == before.attrs.push(a));
}

/// The body is the string of its value, whatever else the value holds: a value
/// without one leaves the record as it was, and one that cannot be read spoils
/// it.
pub proof fn law_the_body_is_its_value(
    b: Seq<u8>,
    lo: int,
    mid: int,
    hi: int,
    res: ResourceModel,
    value: Seq<u8>,
)
    requires
        0 <= lo <= mid <= hi <= b.len() <= usize::MAX,
        otlp::record_at(b, lo, mid, res) is Ok,
        b.subrange(mid, hi) == seq![0x2Au8] + export::varint_bytes(value.len()) + value,
    ensures
        ({
            let before = otlp::record_at(b, lo, mid, res)->Ok_0;
            otlp::record_at(b, lo, hi, res) == (match otlp::any_string(b, hi - value.len(), hi) {
                Ok(Some(at)) => Ok::<RecordModel, ParseError>(RecordModel { body: at, ..before }),
                Ok(None) => Ok(before),
                Err(e) => Err(e),
            })
        }),
{
    law_delimited_fields_read_back(b, mid, hi, 5, value);
    lemma_record_grows(b, lo, mid, hi, res);
}

/// An attribute is its pair: one that is no attribute leaves the record as it
/// was, and one that cannot be read spoils it.
pub proof fn law_an_attribute_is_its_pair(
    b: Seq<u8>,
    lo: int,
    mid: int,
    hi: int,
    res: ResourceModel,
    pair: Seq<u8>,
)
    requires
        0 <= lo <= mid <= hi <= b.len() <= usize::MAX,
        otlp::record_at(b, lo, mid, res) is Ok,
        b.subrange(mid, hi) == seq![0x32u8] + export::varint_bytes(pair.len()) + pair,
    ensures
        ({
            let before = otlp::record_at(b, lo, mid, res)->Ok_0;
            otlp::record_at(b, lo, hi, res) == (match otlp::key_value(
                b,
                hi - pair.len(),
                hi,
                None,
                None,
            ) {
                Ok(Some(a)) => Ok::<RecordModel, ParseError>(
                    RecordModel { attrs: before.attrs.push(a), ..before },
                ),
                Ok(None) => Ok(before),
                Err(e) => Err(e),
            })
        }),
{
    law_delimited_fields_read_back(b, mid, hi, 6, pair);
    lemma_record_grows(b, lo, mid, hi, res);
}

/// A trace id of 16 or 32 bytes is read; one of another length is not.
pub proof fn law_trace_ids_are_read(
    b: Seq<u8>,
    lo: int,
    mid: int,
    hi: int,
    res: ResourceModel,
    id: Seq<u8>,
)
    requires
        0 <= lo <= mid <= hi <= b.len() <= usize::MAX,
        otlp::record_at(b, lo, mid, res) is Ok,
        b.subrange(mid, hi) == seq![0x4Au8] + export::varint_bytes(id.len()) + id,
    ensures
        ({
            let before = otlp::record_at(b, lo, mid, res)->Ok_0;
            otlp::record_at(b, lo, hi, res) == Ok::<RecordModel, ParseError>(
                if id.len() == 16 || id.len() == 32 {
                    RecordModel { trace_id: Some((hi - id.len(), hi)), ..before }
                } else {
                    before
                },
            )
        }),
        b.subrange(hi - id.len(), hi) == id,
{
    law_delimited_fields_read_back(b, mid, hi, 9, id);
    lemma_record_grows(b, lo, mid, hi, res);
}

/// Any other field leaves a record as it was.
pub proof fn law_other_record_fields_are_passed_over(
    b: Seq<u8>,
    lo: int,
    mid: int,
    hi: int,
    res: ResourceModel,
    num: u32,
    wire: u8,
)
    requires
        0 <= lo <= mid <= hi <= b.len() <= usize::MAX,
        otlp::record_at(b, lo, mid, res) is Ok,
        one_field(b.subrange(mid, hi), num, wire),
        !(num == 2 && wire == 0),
        !(wire == 2 && (num == 5 || num == 6 || num == 9)),
    ensures
        otlp::record_at(b, lo, hi, res) == otlp::record_at(b, lo, mid, res),
{
    law_fields_read_back(b, mid, hi, num, wire);
    wire::lemma_field_bounds(b, mid, hi);
    lemma_record_grows(b, lo, mid, hi, res);
}

/// A record with a field that cannot be read is refused, with what is wrong
/// with that field.
pub proof fn law_a_bad_field_spoils_its_record(
    b: Seq<u8>,
    lo: int,
    mid: int,
    hi: int,
    res: ResourceModel,
)
    requires
        0 <= lo <= mid < hi <= b.len(),
        otlp::record_at(b, lo, mid, res) is Ok,
        wire::field_at(b, mid, hi) is Err,
    ensures
        otlp::record_at(b, lo, hi, res) == Err::<RecordModel, ParseError>(
            wire::field_at(b, mid, hi)->Err_0,
        ),
{
    lemma_record_extends(b, lo, mid, hi, otlp::blank_record(lo, res));
}

// ---------------------------------------------------------------------------
// Scopes.

proof fn lemma_scope_extends(b: Seq<u8>, pos: int, mid: int, hi: int, res: ResourceModel)
    requires
        0 <= pos <= mid <= hi <= b.len(),
        otlp::scope_records(b, pos, mid, res) is Ok,
    ensures
        otlp::scope_records(b, pos, hi, res) == otlp::joined(
            otlp::scope_records(b, pos, mid, res)->Ok_0,
            otlp::scope_records(b, mid, hi, res),
        ),
    decreases mid - pos,
{
    let done = otlp::scope_records(b, pos, mid, res)->Ok_0;
    let rest = otlp::scope_records(b, mid, hi, res);
    if pos < mid {
        lemma_field_extends(b, pos, mid, hi);
        let f = wire::field_at(b, pos, mid)->Ok_0;
        lemma_scope_extends(b, f.next, mid, hi, res);
        if f.num == 2 && f.wire == 2 {
            let x = otlp::record_at(b, f.lo, f.next, res)->Ok_0;
            let between = otlp::scope_records(b, f.next, mid, res)->Ok_0;
            assert(rest matches Ok(rs) ==> seq![x] + (between + rs) =~= (seq![x] + between) + rs);
        }
    } else {
        assert(rest matches Ok(rs) ==> done + rs =~= rs);
    }
}

/// A scope without a field holds no record. A record field adds its record
/// behind those that were there, and spoils the scope where it cannot be read.
pub proof fn law_scopes_hold_their_records(
    b: Seq<u8>,
    lo: int,
    mid: int,
    hi: int,
    res: ResourceModel,
    record: Seq<u8>,
)
    requires
        0 <= lo <= mid <= hi <= b.len() <= usize::MAX,
        otlp::scope_records(b, lo, mid, res) is Ok,
        b.subrange(mid, hi) == seq![0x12u8] + export::varint_bytes(record.len()) + record,
    ensures
        otlp::scope_records(b, lo, lo, res) == Ok::<Seq<RecordModel>, ParseError>(Seq::empty()),
        otlp::scope_records(b, lo, hi, res) == (match otlp::record_at(
            b,
            hi - record.len(),
            hi,
            res,
        ) {
            Ok(x) => Ok::<Seq<RecordModel>, ParseError>(
                otlp::scope_records(b, lo, mid, res)->Ok_0.push(x),
            ),
            Err(e) => Err(e),
        }),
        b.subrange(hi - record.len(), hi) == record,
{
    law_delimited_fields_read_back(b, mid, hi, 2, record);
    lemma_scope_extends(b, lo, mid, hi, res);
    reveal_with_fuel(otlp::scope_records, 2);
    let done = otlp::scope_records(b, lo, mid, res)->Ok_0;
    if let Ok(x) = otlp::record_at(b, hi - record.len(), hi, res) {
        assert(seq![x] + Seq::<RecordModel>::empty() =~= seq![x]);
        assert(done + seq![x] =~= done.push(x));
    }
}

/// Any other field leaves the records of a scope as they were.
pub proof fn law_other_scope_fields_are_passed_over(
    b: Seq<u8>,
    lo: int,
    mid: int,
    hi: int,
    res: ResourceModel,
    num: u32,
    wire: u8,
)
    requires
        0 <= lo <= mid <= hi <= b.len() <= usize::MAX,
        otlp::scope_records(b, lo, mid, res) is Ok,
        one_field(b.subrange(mid, hi), num, wire),
        num != 2 || wire != 2,
    ensures
        otlp::scope_records(b, lo, hi, res) == otlp::scope_records(b, lo, mid, res),
{
    law_fields_read_back(b, mid, hi, num, wire);
    wire::lemma_field_bounds(b, mid, hi);
    lemma_scope_extends(b, lo, mid, hi, res);
    reveal_with_fuel(otlp::scope_records, 2);
    let done = otlp::scope_records(b, lo, mid, res)->Ok_0;
    assert(done + Seq::<RecordModel>::empty() =~= done);
}

// ---------------------------------------------------------------------------
// Resources.

proof fn lemma_attrs_extend(b: Seq<u8>, pos: int, mid: int, hi: int, acc: ResourceModel)
    requires
        0 <= pos <= mid <= hi <= b.len(),
        otlp::resource_attrs(b, pos, mid, acc) is Ok,
    ensures
        otlp::resource_attrs(b, pos, hi, acc) == otlp::resource_attrs(
            b,
            mid,
            hi,
            otlp::resource_attrs(b, pos, mid, acc)->Ok_0,
        ),
    decreases mid - pos,
{
    if pos < mid {
        lemma_field_extends(b, pos, mid, hi);
        let f = wire::field_at(b, pos, mid)->Ok_0;
        if f.num == 1 && f.wire == 2 {
            match otlp::key_value(b, f.lo, f.next, None, None)->Ok_0 {
                Some(a) => lemma_attrs_extend(b, f.next, mid, hi, otlp::resource_step(b, a, acc)),
                None => lemma_attrs_extend(b, f.next, mid, hi, acc),
            }
        } else {
            lemma_attrs_extend(b, f.next, mid, hi, acc);
        }
    }
}

/// A resource without a field names nothing. A string attribute under
/// `k8s.namespace.name` sets the namespace, one under `service.name` the
/// service name, and one under any other key nothing; everything else stays.
pub proof fn law_resources_name_namespace_and_service(
    b: Seq<u8>,
    lo: int,
    mid: int,
    hi: int,
    acc: ResourceModel,
    key: Seq<u8>,
    text: Seq<u8>,
)
    requires
        0 <= lo <= mid <= hi <= b.len() <= usize::MAX,
        otlp::resource_attrs(b, lo, mid, acc) is Ok,
        ({
            let value = seq![0x12u8] + export::varint_bytes(string_value(text).len())
                + string_value(text);
            let pair = (seq![0x0Au8] + export::varint_bytes(key.len()) + key) + value;
            b.subrange(mid, hi) == seq![0x0Au8] + export::varint_bytes(pair.len()) + pair
        }),
    ensures
        otlp::resource_attrs(b, lo, lo, acc) == Ok::<ResourceModel, ParseError>(acc),
        ({
            let before = otlp::resource_attrs(b, lo, mid, acc)->Ok_0;
            otlp::resource_attrs(b, lo, hi, acc) matches Ok(x) && if key
                == vstd::utf8::encode_utf8("k8s.namespace.name"@) {
                &&& x.service_name == before.service_name
                &&& x.namespace matches Some(at) && 0 <= at.0 <= at.1 <= b.len() && b.subrange(
                    at.0,
                    at.1,
                ) == text
            } else if key == vstd::utf8::encode_utf8("service.name"@) {
                &&& x.namespace == before.namespace
                &&& x.service_name matches Some(at) && 0 <= at.0 <= at.1 <= b.len() && b.subrange(
                    at.0,
                    at.1,
                ) == text
            } else {
                x == before
            }
        }),
{
    let head = seq![0x0Au8] + export::varint_bytes(key.len()) + key;
    let value = seq![0x12u8] + export::varint_bytes(string_value(text).len()) + string_value(text);
    let pair = head + value;
    law_delimited_fields_read_back(b, mid, hi, 1, pair);
    let at = hi - pair.len();
    lemma_holds(b, at, hi, head + value);
    fidelity::lemma_holds_parts(b, at, head, value);
    law_key_and_string_are_an_attribute(b, at, at + head.len(), hi, key, text);
    lemma_attrs_extend(b, lo, mid, hi, acc);
    reveal_with_fuel(otlp::resource_attrs, 2);
    reveal_strlit("k8s.namespace.name");
    reveal_strlit("service.name");
    vstd::utf8::is_ascii_chars_encode_utf8("k8s.namespace.name"@);
    vstd::utf8::is_ascii_chars_encode_utf8("service.name"@);
}

proof fn lemma_resource_fields_extend(
    b: Seq<u8>,
    pos: int,
    mid: int,
    hi: int,
    res: ResourceModel,
    scopes: Seq<(int, int)>,
)
    requires
        0 <= pos <= mid <= hi <= b.len(),
        otlp::resource_fields(b, pos, mid, res, scopes) is Ok,
    ensures
        ({
            let (res2, scopes2) = otlp::resource_fields(b, pos, mid, res, scopes)->Ok_0;
            otlp::resource_fields(b, pos, hi, res, scopes) == otlp::resource_fields(
                b,
                mid,
                hi,
                res2,
                scopes2,
            )
        }),
    decreases mid - pos,
{
    if pos < mid {
        lemma_field_extends(b, pos, mid, hi);
        let f = wire::field_at(b, pos, mid)->Ok_0;
        if f.num == 1 && f.wire == 2 {
            let r = otlp::resource_attrs(b, f.lo, f.next, otlp::no_resource())->Ok_0;
            lemma_resource_fields_extend(b, f.next, mid, hi, r, scopes);
        } else if f.num == 2 && f.wire == 2 {
            lemma_resource_fields_extend(b, f.next, mid, hi, res, scopes.push((f.lo, f.next)));
        } else {
            lemma_resource_fields_extend(b, f.next, mid, hi, res, scopes);
        }
    }
}

proof fn lemma_scopes_push(
    b: Seq<u8>,
    scopes: Seq<(int, int)>,
    w: (int, int),
    res: ResourceModel,
)
    ensures
        otlp::scopes_records(b, scopes.push(w), res) == (match otlp::scopes_records(
            b,
            scopes,
            res,
        ) {
            Ok(rs) => otlp::joined(rs, otlp::scope_records(b, w.0, w.1, res)),
            Err(e) => Err(e),
        }),
    decreases scopes.len(),
{
    let all = scopes.push(w);
    let last = otlp::scope_records(b, w.0, w.1, res);
    reveal_with_fuel(otlp::scopes_records, 2);
    if scopes.len() == 0 {
        assert(all.drop_first() =~= Seq::empty());
        assert(last matches Ok(rs) ==> rs + Seq::<RecordModel>::empty() =~= rs
            && Seq::<RecordModel>::empty() + rs =~= rs);
    } else {
        assert(all.drop_first() =~= scopes.drop_first().push(w));
        lemma_scopes_push(b, scopes.drop_first(), w, res);
        if let Ok(first) = otlp::scope_records(b, scopes[0].0, scopes[0].1, res) {
            if let Ok(mid) = otlp::scopes_records(b, scopes.drop_first(), res) {
                assert(last matches Ok(rs) ==> first + (mid + rs) =~= (first + mid) + rs);
            }
        }
    }
}

/// One more scope adds its records behind those that were there, each under
/// the resource; it spoils the rest where it cannot be read.
pub proof fn law_resources_hold_their_scopes(b: Seq<u8>, lo: int, mid: int, hi: int, scope: Seq<u8>)
    requires
        0 <= lo <= mid <= hi <= b.len() <= usize::MAX,
        otlp::resource_fields(b, lo, mid, otlp::no_resource(), Seq::empty()) is Ok,
        otlp::resource_records(b, lo, mid) is Ok,
        b.subrange(mid, hi) == seq![0x12u8] + export::varint_bytes(scope.len()) + scope,
    ensures
        otlp::resource_records(b, lo, lo) == Ok::<Seq<RecordModel>, ParseError>(Seq::empty()),
        ({
            let (res, _) = otlp::resource_fields(
                b,
                lo,
                mid,
                otlp::no_resource(),
                Seq::empty(),
            )->Ok_0;
            let before = otlp::resource_records(b, lo, mid)->Ok_0;
            &&& otlp::resource_fields(b, lo, hi, otlp::no_resource(), Seq::empty()) matches Ok((r, _))
                && r == res
            &&& otlp::resource_records(b, lo, hi) == (match otlp::scope_records(
                b,
                hi - scope.len(),
                hi,
                res,
            ) {
                Ok(xs) => Ok::<Seq<RecordModel>, ParseError>(before + xs),
                Err(e) => Err(e),
            })
        }),
        b.subrange(hi - scope.len(), hi) == scope,
{
    let none = otlp::no_resource();
    law_delimited_fields_read_back(b, mid, hi, 2, scope);
    lemma_resource_fields_extend(b, lo, mid, hi, none, Seq::empty());
    let (res, scopes) = otlp::resource_fields(b, lo, mid, none, Seq::empty())->Ok_0;
    reveal_with_fuel(otlp::resource_fields, 2);
    lemma_scopes_push(b, scopes, (hi - scope.len(), hi), res);
}

/// A resource in front of the scopes is the one under which their records
/// stand. Nothing stands for a namespace or a service that it does not name.
pub proof fn law_resources_stand_over_their_scopes(b: Seq<u8>, lo: int, hi: int, resource: Seq<u8>)
    requires
        0 <= lo <= hi <= b.len() <= usize::MAX,
        b.subrange(lo, hi) == seq![0x0Au8] + export::varint_bytes(resource.len()) + resource,
        otlp::resource_attrs(
            b,
            hi - resource.len(),
            hi,
            ResourceModel { namespace: None, service_name: None },
        ) is Ok,
    ensures
        otlp::resource_fields(b, lo, hi, otlp::no_resource(), Seq::empty()) matches Ok((r, scopes))
            && r == otlp::resource_attrs(
            b,
            hi - resource.len(),
            hi,
            ResourceModel { namespace: None, service_name: None },
        )->Ok_0 && scopes.len() == 0,
        otlp::resource_fields(b, lo, lo, otlp::no_resource(), Seq::empty()) matches Ok((r, _))
            && r.namespace is None && r.service_name is None,
        otlp::resource_records(b, lo, hi) == Ok::<Seq<RecordModel>, ParseError>(Seq::empty()),
        b.subrange(hi - resource.len(), hi) == resource,
{
    law_delimited_fields_read_back(b, lo, hi, 1, resource);
    reveal_with_fuel(otlp::resource_fields, 2);
}

/// Any other field leaves the records of a resource as they were.
pub proof fn law_other_resource_fields_are_passed_over(
    b: Seq<u8>,
    lo: int,
    mid: int,
    hi: int,
    num: u32,
    wire: u8,
)
    requires
        0 <= lo <= mid <= hi <= b.len() <= usize::MAX,
        otlp::resource_fields(b, lo, mid, otlp::no_resource(), Seq::empty()) is Ok,
        one_field(b.subrange(mid, hi), num, wire),
        wire != 2 || (num != 1 && num != 2),
    ensures
        otlp::resource_fields(b, lo, hi, otlp::no_resource(), Seq::empty())
            == otlp::resource_fields(b, lo, mid, otlp::no_resource(), Seq::empty()),
        otlp::resource_records(b, lo, hi) == otlp::resource_records(b, lo, mid),
{
    law_fields_read_back(b, mid, hi, num, wire);
    wire::lemma_field_bounds(b, mid, hi);
    lemma_resource_fields_extend(b, lo, mid, hi, otlp::no_resource(), Seq::empty());
    reveal_with_fuel(otlp::resource_fields, 2);
}

// ---------------------------------------------------------------------------
// Requests.

proof fn lemma_request_extends(b: Seq<u8>, pos: int, mid: int, hi: int)
    requires
        0 <= pos <= mid <= hi <= b.len(),
        otlp::request_records(b, pos, mid) is Ok,
    ensures
        otlp::request_records(b, pos, hi) == otlp::joined(
            otlp::request_records(b, pos, mid)->Ok_0,
            otlp::request_records(b, mid, hi),
        ),
    decreases mid - pos,
{
    let done = otlp::request_records(b, pos, mid)->Ok_0;
    let rest = otlp::request_records(b, mid, hi);
    if pos < mid {
        lemma_field_extends(b, pos, mid, hi);
        let f = wire::field_at(b, pos, mid)->Ok_0;
        lemma_request_extends(b, f.next, mid, hi);
        if f.num == 1 && f.wire == 2 {
            let first = otlp::resource_records(b, f.lo, f.next)->Ok_0;
            let between = otlp::request_records(b, f.next, mid)->Ok_0;
            assert(rest matches Ok(rs) ==> first + (between + rs) =~= (first + between) + rs);
        }
    } else {
        assert(rest matches Ok(rs) ==> done + rs =~= rs);
    }
}

/// The empty request holds no record. One more resource adds its records
/// behind those that were there, and spoils the request where it cannot be
/// read.
pub proof fn law_requests_hold_their_resources(b: Seq<u8>, mid: int, resource_logs: Seq<u8>)
    requires
        0 <= mid <= b.len() <= usize::MAX,
        otlp::request_records(b, 0, mid) is Ok,
        b.subrange(mid, b.len() as int) == seq![0x0Au8] + export::varint_bytes(resource_logs.len())
            + resource_logs,
    ensures
        otlp::parsed(Seq::empty()) == Ok::<Seq<RecordModel>, ParseError>(Seq::empty()),
        otlp::request_records(b, 0, b.len() as int) == otlp::parsed(b),
        otlp::parsed(b) == (match otlp::resource_records(
            b,
            b.len() - resource_logs.len(),
            b.len() as int,
        ) {
            Ok(xs) => Ok::<Seq<RecordModel>, ParseError>(
                otlp::request_records(b, 0, mid)->Ok_0 + xs,
            ),
            Err(e) => Err(e),
        }),
        b.subrange(b.len() - resource_logs.len(), b.len() as int) == resource_logs,
{
    let hi = b.len() as int;
    law_delimited_fields_read_back(b, mid, hi, 1, resource_logs);
    lemma_request_extends(b, 0, mid, hi);
    reveal_with_fuel(otlp::request_records, 2);
    if let Ok(xs) = otlp::resource_records(b, hi - resource_logs.len(), hi) {
        assert(xs + Seq::<RecordModel>::empty() =~= xs);
    }
}

/// Any other field leaves the records of a request as they were.
pub proof fn law_other_request_fields_are_passed_over(b: Seq<u8>, mid: int, num: u32, wire: u8)
    requires
        0 <= mid <= b.len() <= usize::MAX,
        otlp::request_records(b, 0, mid) is Ok,
        one_field(b.subrange(mid, b.len() as int), num, wire),
        num != 1 || wire != 2,
    ensures
        otlp::parsed(b) == otlp::request_records(b, 0, mid),
{
    let hi = b.len() as int;
    law_fields_read_back(b, mid, hi, num, wire);
    wire::lemma_field_bounds(b, mid, hi);
    lemma_request_extends(b, 0, mid, hi);
    reveal_with_fuel(otlp::request_records, 2);
    let done = otlp::request_records(b, 0, mid)->Ok_0;
    assert(done + Seq::<RecordModel>::empty() =~= done);
}

proof fn lemma_request_read_extends(b: Seq<u8>, pos: int, mid: int, hi: int)
    requires
        0 <= pos <= mid <= hi <= b.len(),
        otlp::request_records(b, pos, mid) is Ok,
    ensures
        otlp::request_read(b, pos, hi) == otlp::request_records(b, pos, mid)->Ok_0
            + otlp::request_read(b, mid, hi),
    decreases mid - pos,
{
    let done = otlp::request_records(b, pos, mid)->Ok_0;
    let rest = otlp::request_read(b, mid, hi);
    if pos < mid {
        lemma_field_extends(b, pos, mid, hi);
        let f = wire::field_at(b, pos, mid)->Ok_0;
        lemma_request_read_extends(b, f.next, mid, hi);
        if f.num == 1 && f.wire == 2 {
            let first = otlp::resource_records(b, f.lo, f.next)->Ok_0;
            let between = otlp::request_records(b, f.next, mid)->Ok_0;
            assert(first + (between + rest) =~= (first + between) + rest);
        }
    } else {
        assert(done + rest =~= rest);
    }
}

/// What stands before an error is read, whatever follows it: the records of
/// all that parses in front are among those that are read, first and in order.
pub proof fn law_records_before_an_error_are_read(b: Seq<u8>, mid: int)
    requires
        0 <= mid <= b.len(),
        otlp::request_records(b, 0, mid) is Ok,
    ensures
        otlp::request_records(b, 0, mid)->Ok_0.is_prefix_of(otlp::read(b)),
        mid < b.len() && wire::field_at(b, mid, b.len() as int) is Err ==> otlp::read(b)
            == otlp::request_records(b, 0, mid)->Ok_0,
{
    lemma_request_read_extends(b, 0, mid, b.len() as int);
    let done = otlp::request_records(b, 0, mid)->Ok_0;
    let rest = otlp::request_read(b, mid, b.len() as int);
    assert((done + rest).subrange(0, done.len() as int) =~= done);
    if mid < b.len() && wire::field_at(b, mid, b.len() as int) is Err {
        assert(done + rest =~= done);
    }
}

/// A field that cannot be read spoils whatever it stands in, with what is
/// wrong with it: a value, a pair, a scope, a resource, a request.
pub proof fn law_a_bad_field_spoils_everything_around_it(
    b: Seq<u8>,
    lo: int,
    mid: int,
    hi: int,
    res: ResourceModel,
)
    requires
        0 <= lo <= mid < hi <= b.len(),
        wire::field_at(b, mid, hi) is Err,
    ensures
        ({
            let e = wire::field_at(b, mid, hi)->Err_0;
            &&& otlp::any_string(b, mid, hi) == Err::<Option<(int, int)>, ParseError>(e)
            &&& otlp::key_value(b, mid, hi, None, None) == Err::<
                Option<((int, int), (int, int))>,
                ParseError,
            >(e)
            &&& otlp::scope_records(b, lo, mid, res) is Ok ==> otlp::scope_records(b, lo, hi, res)
                == Err::<Seq<RecordModel>, ParseError>(e)
            &&& otlp::resource_attrs(b, lo, mid, res) is Ok ==> otlp::resource_attrs(b, lo, hi, res)
                == Err::<ResourceModel, ParseError>(e)
            &&& otlp::resource_fields(b, lo, mid, otlp::no_resource(), Seq::empty()) is Ok
                ==> otlp::resource_records(b, lo, hi) == Err::<Seq<RecordModel>, ParseError>(e)
            &&& otlp::request_records(b, lo, mid) is Ok ==> otlp::request_records(b, lo, hi)
                == Err::<Seq<RecordModel>, ParseError>(e)
        }),
{
    if otlp::scope_records(b, lo, mid, res) is Ok {
        lemma_scope_extends(b, lo, mid, hi, res);
    }
    if otlp::resource_attrs(b, lo, mid, res) is Ok {
        lemma_attrs_extend(b, lo, mid, hi, res);
    }
    if otlp::resource_fields(b, lo, mid, otlp::no_resource(), Seq::empty()) is Ok {
        lemma_resource_fields_extend(b, lo, mid, hi, otlp::no_resource(), Seq::empty());
    }
    if otlp::request_records(b, lo, mid) is Ok {
        lemma_request_extends(b, lo, mid, hi);
    }
}

/// A resource that cannot be read spoils its scopes; a string attribute of it
/// under a key that names nothing, an attribute that is no string, and any
/// other field leave its names as they were.
pub proof fn law_resources_are_read_pair_by_pair(
    b: Seq<u8>,
    lo: int,
    mid: int,
    hi: int,
    acc: ResourceModel,
    pair: Seq<u8>,
    num: u32,
    wire: u8,
)
    requires
        0 <= lo <= mid <= hi <= b.len() <= usize::MAX,
        otlp::resource_attrs(b, lo, mid, acc) is Ok,
    ensures
        ({
            let before = otlp::resource_attrs(b, lo, mid, acc);
            let after = otlp::resource_attrs(b, lo, hi, acc);
            &&& b.subrange(mid, hi) == seq![0x0Au8] + export::varint_bytes(pair.len()) + pair
                ==> match otlp::key_value(b, hi - pair.len(), hi, None, None) {
                Ok(Some((k, v))) => {
                    let key = b.subrange(k.0, k.1);
                    0 <= k.0 <= k.1 <= b.len() ==> after == Ok::<ResourceModel, ParseError>(
                        if key == vstd::utf8::encode_utf8("k8s.namespace.name"@) {
                            ResourceModel { namespace: Some(v), ..before->Ok_0 }
                        } else if key == vstd::utf8::encode_utf8("service.name"@) {
                            ResourceModel { service_name: Some(v), ..before->Ok_0 }
                        } else {
                            before->Ok_0
                        },
                    )
                },
                Ok(None) => after == before,
                Err(e) => after == Err::<ResourceModel, ParseError>(e),
            }
            &&& one_field(b.subrange(mid, hi), num, wire) && (num != 1 || wire != 2) ==> after
                == before
        }),
{
    lemma_attrs_extend(b, lo, mid, hi, acc);
    reveal_with_fuel(otlp::resource_attrs, 2);
    if b.subrange(mid, hi) == seq![0x0Au8] + export::varint_bytes(pair.len()) + pair {
        law_delimited_fields_read_back(b, mid, hi, 1, pair);
    }
    if one_field(b.subrange(mid, hi), num, wire) && (num != 1 || wire != 2) {
        law_fields_read_back(b, mid, hi, num, wire);
        wire::lemma_field_bounds(b, mid, hi);
    }
}

/// The last resource counts: it stands in place of one before it, and leaves
/// the scopes as they were. One that cannot be read spoils them.
pub proof fn law_the_last_resource_counts(b: Seq<u8>, lo: int, mid: int, hi: int, resource: Seq<u8>)
    requires
        0 <= lo <= mid <= hi <= b.len() <= usize::MAX,
        otlp::resource_fields(b, lo, mid, otlp::no_resource(), Seq::empty()) is Ok,
        b.subrange(mid, hi) == seq![0x0Au8] + export::varint_bytes(resource.len()) + resource,
    ensures
        ({
            let (_, scopes) = otlp::resource_fields(
                b,
                lo,
                mid,
                otlp::no_resource(),
                Seq::empty(),
            )->Ok_0;
            let after = otlp::resource_fields(b, lo, hi, otlp::no_resource(), Seq::empty());
            match otlp::resource_attrs(
                b,
                hi - resource.len(),
                hi,
                ResourceModel { namespace: None, service_name: None },
            ) {
                Ok(r) => after == Ok::<(ResourceModel, Seq<(int, int)>), ParseError>((r, scopes)),
                Err(e) => otlp::resource_records(b, lo, hi) == Err::<Seq<RecordModel>, ParseError>(
                    e,
                ),
            }
        }),
{
    law_delimited_fields_read_back(b, mid, hi, 1, resource);
    lemma_resource_fields_extend(b, lo, mid, hi, otlp::no_resource(), Seq::empty());
    reveal_with_fuel(otlp::resource_fields, 2);
}

} // verus!
