//! Protobuf wire format: a bounds-checked cursor and what it reads.
//!
//! All positions are absolute offsets into one request buffer. The spec
//! functions of this module say what stands at a position of a window that
//! ends at `end`; [`WireCursor`] computes exactly that.

use std::ops::Range;
use vstd::arithmetic::power2::*;
use vstd::bits::*;
use vstd::prelude::*;

verus! {

/// Why a buffer is not a well-formed sequence of fields.
#[derive(Debug, Clone, Copy, PartialEq, Eq, Structural)]
pub enum ParseError {
    /// The window ends inside a value, at this offset.
    Truncated(usize),
    /// The varint that starts at this offset is longer than ten bytes.
    VarintOverflow(usize),
    /// A wire type that OTLP does not use.
    UnsupportedWire { wire: u8, offset: usize },
    /// The length prefix at this offset reaches past its message.
    LengthOverrun(usize),
}

/// A varint carries seven bits in each byte, and at most ten bytes.
pub const MAX_VARINT_LEN: usize = 10;

/// The offset just past the varint that starts at `pos`: one past the first
/// byte below 128. `None` where the window holds no such byte.
pub open spec fn varint_stop(b: Seq<u8>, pos: int, end: int) -> Option<int>
    decreases end - pos,
{
    if pos >= end {
        None
    } else if b[pos] < 128 {
        Some(pos + 1)
    } else {
        varint_stop(b, pos + 1, end)
    }
}

/// The base-128 number, least significant digit first, in `b[pos..stop]`.
pub open spec fn varint_num(b: Seq<u8>, pos: int, stop: int) -> nat
    decreases stop - pos,
{
    if pos >= stop {
        0
    } else {
        (b[pos] as nat) % 128 + 128 * varint_num(b, pos + 1, stop)
    }
}

/// The varint at `pos`: its value modulo 2^64 and the offset behind it.
pub open spec fn varint_at(b: Seq<u8>, pos: int, end: int) -> Result<(u64, int), ParseError> {
    match varint_stop(b, pos, end) {
        Some(stop) => if stop - pos <= MAX_VARINT_LEN {
            Ok(((varint_num(b, pos, stop) % 0x1_0000_0000_0000_0000) as u64, stop))
        } else {
            Err(ParseError::VarintOverflow(pos as usize))
        },
        None => if end - pos > MAX_VARINT_LEN {
            Err(ParseError::VarintOverflow(pos as usize))
        } else {
            Err(ParseError::Truncated((if pos < end { end } else { pos }) as usize))
        },
    }
}

/// The field tag at `pos`: field number, wire type, offset behind the tag.
pub open spec fn tag_at(b: Seq<u8>, pos: int, end: int) -> Result<(u32, u8, int), ParseError> {
    match varint_at(b, pos, end) {
        Ok((t, next)) => Ok((((t / 8) % 0x1_0000_0000) as u32, (t % 8) as u8, next)),
        Err(e) => Err(e),
    }
}

/// The length-delimited payload whose length prefix stands at `pos`.
pub open spec fn range_at(b: Seq<u8>, pos: int, end: int) -> Result<(int, int), ParseError> {
    match varint_at(b, pos, end) {
        Ok((len, start)) => if start + len <= end {
            Ok((start, start + len))
        } else {
            Err(ParseError::LengthOverrun(pos as usize))
        },
        Err(e) => Err(e),
    }
}

/// The offset behind the value of wire type `wire` at `pos`.
pub open spec fn skip_at(b: Seq<u8>, pos: int, end: int, wire: u8) -> Result<int, ParseError> {
    if wire == 0 {
        match varint_at(b, pos, end) {
            Ok((_, next)) => Ok(next),
            Err(e) => Err(e),
        }
    } else if wire == 1 {
        if pos + 8 <= end {
            Ok(pos + 8)
        } else {
            Err(ParseError::Truncated(pos as usize))
        }
    } else if wire == 2 {
        match range_at(b, pos, end) {
            Ok((_, next)) => Ok(next),
            Err(e) => Err(e),
        }
    } else if wire == 5 {
        if pos + 4 <= end {
            Ok(pos + 4)
        } else {
            Err(ParseError::Truncated(pos as usize))
        }
    } else {
        Err(ParseError::UnsupportedWire { wire, offset: pos as usize })
    }
}

/// Where reading a varint at `pos` stops: behind it, behind the byte that is
/// one too many, or at the end of the window.
pub open spec fn varint_end(b: Seq<u8>, pos: int, end: int) -> int {
    match varint_at(b, pos, end) {
        Ok((_, next)) => next,
        Err(ParseError::VarintOverflow(_)) => pos + MAX_VARINT_LEN + 1,
        Err(_) => if pos < end {
            end
        } else {
            pos
        },
    }
}

/// Where reading a length-delimited payload at `pos` stops: behind it, or
/// behind the length prefix that could be read.
pub open spec fn range_end(b: Seq<u8>, pos: int, end: int) -> int {
    match range_at(b, pos, end) {
        Ok((_, next)) => next,
        Err(_) => varint_end(b, pos, end),
    }
}

/// Where skipping a value of wire type `wire` at `pos` stops. A fixed-width
/// value that is cut short, and a wire type that is not used, leave it at
/// `pos`.
pub open spec fn skip_end(b: Seq<u8>, pos: int, end: int, wire: u8) -> int {
    if wire == 0 {
        varint_end(b, pos, end)
    } else if wire == 2 {
        range_end(b, pos, end)
    } else {
        match skip_at(b, pos, end, wire) {
            Ok(next) => next,
            Err(_) => pos,
        }
    }
}

/// Where reading the field whose tag stands at `pos` stops.
pub open spec fn field_end(b: Seq<u8>, pos: int, end: int) -> int {
    match tag_at(b, pos, end) {
        Ok((_, wire, at)) => skip_end(b, at, end, wire),
        Err(_) => varint_end(b, pos, end),
    }
}

/// One field of a message: its number and wire type, the varint it holds
/// (wire type 0) or where its payload starts (wire type 2), and the offset of
/// the next field.
pub struct Field {
    pub num: u32,
    pub wire: u8,
    pub value: u64,
    pub lo: int,
    pub next: int,
}

/// The field whose tag stands at `pos`.
#[verifier::opaque]
pub open spec fn field_at(b: Seq<u8>, pos: int, end: int) -> Result<Field, ParseError> {
    match tag_at(b, pos, end) {
        Err(e) => Err(e),
        Ok((num, wire, at)) => if wire == 0 {
            match varint_at(b, at, end) {
                Ok((value, next)) => Ok(Field { num, wire, value, lo: at, next }),
                Err(e) => Err(e),
            }
        } else if wire == 2 {
            match range_at(b, at, end) {
                Ok((lo, next)) => Ok(Field { num, wire, value: 0, lo, next }),
                Err(e) => Err(e),
            }
        } else {
            match skip_at(b, at, end, wire) {
                Ok(next) => Ok(Field { num, wire, value: 0, lo: at, next }),
                Err(e) => Err(e),
            }
        },
    }
}

/// A varint that is there ends inside its window.
pub proof fn lemma_varint_stop(b: Seq<u8>, pos: int, end: int)
    ensures
        varint_stop(b, pos, end) matches Some(stop) ==> pos < stop <= end && b[stop - 1] < 128
            && forall|i: int| pos <= i < stop - 1 ==> #[trigger] b[i] >= 128,
        varint_stop(b, pos, end) is None ==> forall|i: int| pos <= i < end ==> #[trigger] b[i] >= 128,
    decreases end - pos,
{
    if pos < end && b[pos] >= 128 {
        lemma_varint_stop(b, pos + 1, end);
    }
}

/// The first byte below 128 decides where a varint ends.
pub proof fn lemma_varint_stop_is(b: Seq<u8>, pos: int, end: int, stop: int)
    requires
        pos < stop <= end,
        b[stop - 1] < 128,
        forall|i: int| pos <= i < stop - 1 ==> #[trigger] b[i] >= 128,
    ensures
        varint_stop(b, pos, end) == Some(stop),
    decreases stop - pos,
{
    if pos + 1 < stop {
        assert(b[pos] >= 128);
        lemma_varint_stop_is(b, pos + 1, end, stop);
    }
}

/// A field that is there takes at least one byte and ends inside its window.
pub proof fn lemma_field_bounds(b: Seq<u8>, pos: int, end: int)
    ensures
        field_at(b, pos, end) matches Ok(f) ==> pos < f.lo <= f.next <= end,
{
    reveal(field_at);
    lemma_varint_stop(b, pos, end);
    if let Ok((_, _, at)) = tag_at(b, pos, end) {
        lemma_varint_stop(b, at, end);
    }
}

/// Seven more bits are one more base-128 digit.
proof fn lemma_pow2_digit(k: nat)
    ensures
        pow2(7 * (k + 1)) == 128 * pow2(7 * k),
{
    lemma_pow2_adds(7, 7 * k);
    lemma2_to64();
}

/// Reading one more digit adds it at its place.
proof fn lemma_varint_num_push(b: Seq<u8>, pos: int, stop: int)
    requires
        pos <= stop,
    ensures
        varint_num(b, pos, stop + 1) == varint_num(b, pos, stop) + pow2((7 * (stop - pos)) as nat)
            * ((b[stop] as nat) % 128),
    decreases stop - pos,
{
    if pos == stop {
        lemma2_to64();
        let d = (b[stop] as nat) % 128;
        let p = pow2(0);
        assert(p * d == d) by (nonlinear_arith)
            requires
                p == 1,
        ;
        assert(varint_num(b, pos + 1, stop + 1) == 0);
    } else {
        lemma_varint_num_push(b, pos + 1, stop);
        lemma_pow2_digit((stop - pos - 1) as nat);
        let d = (b[stop] as nat) % 128;
        let k = (stop - pos - 1) as nat;
        let p = pow2(7 * k);
        assert((7 * (stop - pos)) as nat == 7 * (k + 1));
        assert(7 * (stop - (pos + 1)) == 7 * k);
        assert(128 * (p * d) == (128 * p) * d) by (nonlinear_arith);
        assert(varint_num(b, pos + 1, stop + 1) == varint_num(b, pos + 1, stop) + p * d);
    }
}

/// `k` digits make a number below 2^(7k).
proof fn lemma_varint_num_bound(b: Seq<u8>, pos: int, stop: int)
    requires
        pos <= stop,
    ensures
        varint_num(b, pos, stop) < pow2((7 * (stop - pos)) as nat),
    decreases stop - pos,
{
    lemma2_to64();
    if pos < stop {
        lemma_varint_num_bound(b, pos + 1, stop);
        lemma_pow2_digit((stop - pos - 1) as nat);
    }
}

/// Setting digit `k` of a ten-digit accumulator, whatever leaves the top.
proof fn lemma_or_digit(v: u64, x: u64, k: nat)
    requires
        k < MAX_VARINT_LEN,
        v < pow2(7 * k),
        x < 128,
    ensures
        (v | (x << (7 * k) as u64)) as nat == (v + pow2(7 * k) * x) % 0x1_0000_0000_0000_0000,
{
    let s: u64 = (7 * k) as u64;
    lemma2_to64();
    lemma2_to64_rest();
    lemma_pow2_strictly_increases(s as nat, 64);
    lemma_u64_shl_is_mul(1, s);
    assert(v < (1u64 << s));
    assert((v | (x << s)) as int == v + (x << s)) by (bit_vector)
        requires
            s < 64,
            v < (1u64 << s),
    ;
    if k < 9 {
        lemma_pow2_digit(k);
        if 7 * (k + 1) < 63 {
            lemma_pow2_strictly_increases(7 * (k + 1), 63);
        }
        let p = pow2(7 * k);
        assert(x * p < 128 * p) by (nonlinear_arith)
            requires
                x < 128,
                p > 0,
        ;
        assert(x * p == p * x) by (nonlinear_arith);
        lemma_u64_shl_is_mul(x, s);
    } else {
        assert((x << 63u64) == (x % 2) * 0x8000_0000_0000_0000) by (bit_vector);
        assert(pow2(7 * k) * x == 0x8000_0000_0000_0000 * x);
    }
}

/// One field as the cursor found it; see [`Field`].
#[derive(Debug)]
pub struct FieldView {
    pub num: u32,
    pub wire: u8,
    pub value: u64,
    pub start: usize,
    pub end: usize,
}

/// Bounds-checked cursor over one message window of a buffer.
pub struct WireCursor<'a> {
    buf: &'a [u8],
    pos: usize,
    end: usize,
}

impl<'a> WireCursor<'a> {
    #[verifier::type_invariant]
    spec fn inv(self) -> bool {
        self.end <= self.buf@.len()
    }

    /// The whole buffer.
    pub closed spec fn buffer(self) -> Seq<u8> {
        self.buf@
    }

    /// Absolute offset of the next unread byte.
    pub closed spec fn at(self) -> int {
        self.pos as int
    }

    /// Absolute offset of the window's end.
    pub closed spec fn limit(self) -> int {
        self.end as int
    }

    pub fn new(buf: &'a [u8], window: Range<usize>) -> (cur: Self)
        requires
            window.end <= buf@.len(),
        ensures
            cur.buffer() == buf@,
            cur.at() == window.start,
            cur.limit() == window.end,
    {
        Self { buf, pos: window.start, end: window.end }
    }

    pub fn done(&self) -> (r: bool)
        ensures
            r == (self.at() >= self.limit()),
    {
        self.pos >= self.end
    }

    /// Absolute offset of the next unread byte.
    pub fn pos(&self) -> (r: usize)
        ensures
            r == self.at(),
    {
        self.pos
    }

    fn byte(&mut self) -> (r: Result<u8, ParseError>)
        ensures
            final(self).buffer() == old(self).buffer(),
            final(self).limit() == old(self).limit(),
            old(self).at() >= old(self).limit() ==> r == Err::<u8, ParseError>(
                ParseError::Truncated(old(self).at() as usize),
            ) && final(self).at() == old(self).at(),
            old(self).at() < old(self).limit() ==> r == Ok::<u8, ParseError>(
                old(self).buffer()[old(self).at()],
            ) && final(self).at() == old(self).at() + 1,
    {
        proof {
            use_type_invariant(&*self);
        }
        if self.pos >= self.end {
            return Err(ParseError::Truncated(self.pos));
        }
        let b: u8 = self.buf[self.pos];
        self.pos = self.pos + 1;
        Ok(b)
    }

    pub fn varint(&mut self) -> (r: Result<u64, ParseError>)
        ensures
            final(self).buffer() == old(self).buffer(),
            final(self).limit() == old(self).limit(),
            final(self).at() == varint_end(old(self).buffer(), old(self).at(), old(self).limit()),
            final(self).at() >= old(self).at(),
            match varint_at(old(self).buffer(), old(self).at(), old(self).limit()) {
                Ok((v, next)) => r == Ok::<u64, ParseError>(v) && final(self).at() == next,
                Err(e) => r == Err::<u64, ParseError>(e),
            },
    {
        let start: usize = self.pos;
        let mut v: u64 = 0;
        let mut shift: u32 = 0;
        let ghost b = self.buffer();
        let ghost end = self.limit();
        let ghost mut k: nat = 0;
        proof {
            lemma2_to64();
        }
        loop
            invariant
                self.buffer() == b,
                b == old(self).buffer(),
                self.limit() == end,
                end == old(self).limit(),
                start == old(self).at(),
                self.at() == start + k,
                shift == 7 * k,
                k <= MAX_VARINT_LEN,
                k > 0 ==> start + k <= end,
                forall|i: int| start <= i < start + k ==> #[trigger] b[i] >= 128,
                k < MAX_VARINT_LEN ==> v == varint_num(b, start as int, start + k),
            decreases MAX_VARINT_LEN - k,
        {
            proof {
                lemma_varint_stop(b, start as int, end);
            }
            let byte: u8 = match self.byte() {
                Ok(byte) => byte,
                Err(e) => {
                    return Err(e);
                },
            };
            if shift >= 64 {
                return Err(ParseError::VarintOverflow(start));
            }
            proof {
                lemma_varint_num_push(b, start as int, start + k);
                lemma_varint_num_bound(b, start as int, start + k);
                assert((byte & 0x7F) == byte % 128) by (bit_vector);
                lemma_or_digit(v, (byte & 0x7F) as u64, k);
                assert((byte & 0x80 == 0) <==> byte < 128) by (bit_vector);
                lemma_varint_num_bound(b, start as int, start + k + 1);
                lemma2_to64_rest();
                if k < 8 {
                    lemma_pow2_strictly_increases((7 * (k + 1)) as nat, 63);
                }
            }
            v = v | ((byte & 0x7F) as u64) << shift;
            if byte & 0x80 == 0 {
                proof {
                    lemma_varint_stop_is(b, start as int, end, start + k + 1);
                }
                return Ok(v);
            }
            shift = shift + 7;
            proof {
                k = k + 1;
            }
        }
    }

    /// Field tag: (field number, wire type).
    pub fn tag(&mut self) -> (r: Result<(u32, u8), ParseError>)
        ensures
            final(self).buffer() == old(self).buffer(),
            final(self).limit() == old(self).limit(),
            final(self).at() == varint_end(old(self).buffer(), old(self).at(), old(self).limit()),
            final(self).at() >= old(self).at(),
            match tag_at(old(self).buffer(), old(self).at(), old(self).limit()) {
                Ok((num, wire, next)) => r == Ok::<(u32, u8), ParseError>((num, wire))
                    && final(self).at() == next,
                Err(e) => r == Err::<(u32, u8), ParseError>(e),
            },
    {
        match self.varint() {
            Ok(t) => {
                proof {
                    assert((t >> 3) as u32 == ((t / 8) % 0x1_0000_0000) as u32) by (bit_vector);
                    assert((t & 0x7) as u8 == (t % 8) as u8) by (bit_vector);
                }
                Ok(((t >> 3) as u32, (t & 0x7) as u8))
            },
            Err(e) => Err(e),
        }
    }

    /// Length-delimited payload as an absolute range; the cursor jumps past it.
    pub fn len_range(&mut self) -> (r: Result<Range<usize>, ParseError>)
        ensures
            final(self).buffer() == old(self).buffer(),
            final(self).limit() == old(self).limit(),
            final(self).at() == range_end(old(self).buffer(), old(self).at(), old(self).limit()),
            final(self).at() >= old(self).at(),
            match range_at(old(self).buffer(), old(self).at(), old(self).limit()) {
                Ok((lo, hi)) => r matches Ok(w) && w.start == lo && w.end == hi && final(self).at()
                    == hi,
                Err(e) => r == Err::<Range<usize>, ParseError>(e),
            },
    {
        let at: usize = self.pos;
        proof {
            lemma_varint_stop(self.buffer(), self.at(), self.limit());
        }
        let len: u64 = match self.varint() {
            Ok(len) => len,
            Err(e) => {
                return Err(e);
            },
        };
        let start: usize = self.pos;
        if len > (self.end - start) as u64 {
            return Err(ParseError::LengthOverrun(at));
        }
        let end: usize = start + len as usize;
        proof {
            use_type_invariant(&*self);
        }
        self.pos = end;
        Ok(start..end)
    }

    fn advance(&mut self, n: usize) -> (r: Result<(), ParseError>)
        ensures
            final(self).buffer() == old(self).buffer(),
            final(self).limit() == old(self).limit(),
            final(self).at() >= old(self).at(),
            old(self).at() + n <= old(self).limit() ==> r == Ok::<(), ParseError>(())
                && final(self).at() == old(self).at() + n,
            old(self).at() + n > old(self).limit() ==> r == Err::<(), ParseError>(
                ParseError::Truncated(old(self).at() as usize),
            ) && final(self).at() == old(self).at(),
    {
        if self.pos > self.end || n > self.end - self.pos {
            return Err(ParseError::Truncated(self.pos));
        }
        proof {
            use_type_invariant(&*self);
        }
        self.pos = self.pos + n;
        Ok(())
    }

    /// Move past a value of the given wire type.
    pub fn skip(&mut self, wire: u8) -> (r: Result<(), ParseError>)
        ensures
            final(self).buffer() == old(self).buffer(),
            final(self).limit() == old(self).limit(),
            final(self).at() == skip_end(old(self).buffer(), old(self).at(), old(self).limit(), wire),
            final(self).at() >= old(self).at(),
            match skip_at(old(self).buffer(), old(self).at(), old(self).limit(), wire) {
                Ok(next) => r == Ok::<(), ParseError>(()) && final(self).at() == next,
                Err(e) => r == Err::<(), ParseError>(e),
            },
    {
        match wire {
            0 => match self.varint() {
                Ok(_) => Ok(()),
                Err(e) => Err(e),
            },
            1 => self.advance(8),
            2 => match self.len_range() {
                Ok(_) => Ok(()),
                Err(e) => Err(e),
            },
            5 => self.advance(4),
            w => Err(ParseError::UnsupportedWire { wire: w, offset: self.pos }),
        }
    }

    /// Read one whole field: its tag and its value.
    pub fn field(&mut self) -> (r: Result<FieldView, ParseError>)
        ensures
            final(self).buffer() == old(self).buffer(),
            final(self).limit() == old(self).limit(),
            final(self).at() == field_end(old(self).buffer(), old(self).at(), old(self).limit()),
            match field_at(old(self).buffer(), old(self).at(), old(self).limit()) {
                Ok(f) => {
                    &&& r matches Ok(v)
                    &&& v.num == f.num
                    &&& v.wire == f.wire
                    &&& v.value == f.value
                    &&& v.start == f.lo
                    &&& v.end == f.next
                    &&& final(self).at() == f.next
                    &&& old(self).at() < f.lo <= f.next <= old(self).limit()
                },
                Err(e) => r == Err::<FieldView, ParseError>(e),
            },
    {
        proof {
            lemma_field_bounds(self.buffer(), self.at(), self.limit());
            reveal(field_at);
        }
        let (num, wire) = match self.tag() {
            Ok(t) => t,
            Err(e) => {
                return Err(e);
            },
        };
        let start: usize = self.pos;
        match wire {
            0 => match self.varint() {
                Ok(value) => Ok(FieldView { num, wire, value, start, end: self.pos }),
                Err(e) => Err(e),
            },
            2 => match self.len_range() {
                Ok(w) => Ok(FieldView { num, wire, value: 0, start: w.start, end: w.end }),
                Err(e) => Err(e),
            },
            _ => match self.skip(wire) {
                Ok(()) => Ok(FieldView { num, wire, value: 0, start, end: self.pos }),
                Err(e) => Err(e),
            },
        }
    }
}

/// Where a read stops: behind what it read. A fixed-width value that is cut
/// short and a wire type that is not used move nothing; a length that reaches
/// too far is read itself; a number that does not end is read to the end.
pub proof fn law_where_reading_stops(b: Seq<u8>, pos: int, end: int, wire: u8)
    requires
        0 <= pos <= end <= b.len() <= usize::MAX,
    ensures
        skip_at(b, pos, end, wire) matches Ok(next) ==> skip_end(b, pos, end, wire) == next,
        wire == 1 && pos + 8 <= end ==> skip_end(b, pos, end, wire) == pos + 8,
        wire == 1 && pos + 8 > end ==> skip_end(b, pos, end, wire) == pos,
        wire == 5 && pos + 4 <= end ==> skip_end(b, pos, end, wire) == pos + 4,
        wire == 5 && pos + 4 > end ==> skip_end(b, pos, end, wire) == pos,
        wire != 0 && wire != 1 && wire != 2 && wire != 5 ==> skip_end(b, pos, end, wire) == pos,
        varint_at(b, pos, end) matches Ok((n, next)) ==> {
            &&& varint_end(b, pos, end) == next
            &&& skip_end(b, pos, end, 0) == next
            &&& next + n <= end ==> skip_end(b, pos, end, 2) == next + n
            &&& next + n > end ==> skip_end(b, pos, end, 2) == next
        },
        varint_at(b, pos, end) matches Err(ParseError::Truncated(_)) ==> varint_end(b, pos, end)
            == end && skip_end(b, pos, end, 0) == end && skip_end(b, pos, end, 2) == end,
{
}

} // verus!
