//! Bookkeeping of the bounded, durable destination spool.
//!
//! Payloads that fail to forward are held on disk and retried, oldest first.
//! A full spool pushes back; nothing is ever evicted to make room. Each
//! payload is one file `<20 digits>.otlp`, written under a temporary name and
//! then renamed. The file operations are the caller's: it reserves room,
//! writes, and reports how that went.

use crate::text;
use std::collections::BTreeMap;
use vstd::prelude::*;
use vstd::string::*;

verus! {

broadcast use vstd::std_specs::btree::group_btree_axioms;

/// Suffix of a published payload.
pub const PAYLOAD_SUFFIX: &'static str = ".otlp";

/// Suffix of a payload that is being written.
pub const TMP_SUFFIX: &'static str = ".tmp";

/// Digits in a payload's name.
pub const SEQ_DIGITS: usize = 20;

/// Seconds between looks at an empty spool.
pub const IDLE_POLL_SECS: u64 = 1;

/// Shortest and longest wait, in seconds, while the destination is down.
pub const BACKOFF_BASE_SECS: u64 = 1;

pub const BACKOFF_MAX_SECS: u64 = 30;

/// Why a payload was not spooled.
#[derive(Debug)]
pub enum SpoolError {
    /// It would not fit.
    Full { current: u64, max: u64 },
    /// It could not be written.
    Io(String),
}

/// Result of one attempt to drain.
#[derive(Debug, Clone, Copy, PartialEq, Eq, Structural)]
pub enum DrainOutcome {
    /// A payload was delivered and removed.
    Delivered,
    /// Nothing to drain.
    Idle,
    /// The payload stays: it is unreadable, or the destination is down.
    Retry,
}

/// A number in decimal, with exactly `width` digits.
pub open spec fn padded(n: nat, width: nat) -> Seq<char>
    decreases width,
{
    if width == 0 {
        Seq::empty()
    } else {
        padded(n / 10, (width - 1) as nat).push(text::digit(n % 10))
    }
}

/// The name of a published payload.
pub open spec fn payload_name(seq: u64) -> Seq<char> {
    padded(seq as nat, SEQ_DIGITS as nat) + PAYLOAD_SUFFIX@
}

/// The name of a payload that is being written.
pub open spec fn tmp_name_of(seq: u64) -> Seq<char> {
    payload_name(seq) + TMP_SUFFIX@
}

fn padded_string(n: u64, width: usize) -> (s: String)
    ensures
        s@ == padded(n as nat, width as nat),
    decreases width,
{
    if width == 0 {
        String::new()
    } else {
        let mut s = padded_string(n / 10, width - 1);
        let d: u8 = (n % 10) as u8;
        let c: char = (48u8 + d) as char;
        s.push(c);
        s
    }
}

/// The file name of a published payload.
pub fn file_name(seq: u64) -> (s: String)
    ensures
        s@ == payload_name(seq),
{
    let mut s = padded_string(seq, SEQ_DIGITS);
    s.append(PAYLOAD_SUFFIX);
    s
}

/// The file name of a payload that is being written.
pub fn tmp_name(seq: u64) -> (s: String)
    ensures
        s@ == tmp_name_of(seq),
{
    let mut s = file_name(seq);
    s.append(TMP_SUFFIX);
    s
}

pub open spec fn is_digit(b: u8) -> bool {
    48 <= b <= 57
}

/// The number that decimal digits stand for.
pub open spec fn digits_value(b: Seq<u8>) -> nat
    decreases b.len(),
{
    if b.len() == 0 {
        0
    } else {
        digits_value(b.drop_last()) * 10 + (b.last() - 48) as nat
    }
}

/// Whether a byte string ends with another.
pub open spec fn ends_with(b: Seq<u8>, suffix: Seq<u8>) -> bool {
    b.len() >= suffix.len() && b.skip(b.len() - suffix.len()) == suffix
}

/// The sequence number in the name of a published payload: twenty digits that
/// fit 64 bits, and the suffix.
pub open spec fn seq_in(name: Seq<u8>) -> Option<u64> {
    let suffix = vstd::utf8::encode_utf8(PAYLOAD_SUFFIX@);
    let stem = name.take(name.len() - suffix.len());
    if ends_with(name, suffix) && stem.len() == SEQ_DIGITS && (forall|i: int|
        0 <= i < stem.len() ==> is_digit(#[trigger] stem[i])) && digits_value(stem) <= u64::MAX {
        Some(digits_value(stem) as u64)
    } else {
        None
    }
}

fn has_suffix(b: &[u8], suffix: &[u8]) -> (r: bool)
    ensures
        r == ends_with(b@, suffix@),
{
    if b.len() < suffix.len() {
        return false;
    }
    let tail = vstd::slice::slice_subrange(b, b.len() - suffix.len(), b.len());
    assert(tail@ =~= b@.skip(b@.len() - suffix@.len()));
    text::bytes_eq(tail, suffix)
}

/// The sequence number in the name of a published payload.
pub fn parse_seq(name: &str) -> (r: Option<u64>)
    ensures
        r == seq_in(vstd::utf8::encode_utf8(name@)),
{
    let bytes = name.as_bytes();
    let suffix = PAYLOAD_SUFFIX.as_bytes();
    if !has_suffix(bytes, suffix) {
        return None;
    }
    let end: usize = bytes.len() - suffix.len();
    let ghost stem = bytes@.take(end as int);
    if end != SEQ_DIGITS {
        return None;
    }
    let mut value: u128 = 0;
    let mut i: usize = 0;
    proof {
        reveal(vstd::arithmetic::power::pow);
    }
    while i < end
        invariant
            i <= end,
            end == SEQ_DIGITS,
            end <= bytes@.len(),
            stem == bytes@.take(end as int),
            forall|j: int| 0 <= j < i ==> is_digit(#[trigger] stem[j]),
            value == digits_value(stem.take(i as int)),
            value < vstd::arithmetic::power::pow(10, i as nat),
            bytes@ == vstd::utf8::encode_utf8(name@),
            stem == bytes@.take(
                bytes@.len() - vstd::utf8::encode_utf8(PAYLOAD_SUFFIX@).len(),
            ),
        decreases end - i,
    {
        let b: u8 = bytes[i];
        if b < 48 || b > 57 {
            assert(!is_digit(stem[i as int]));
            return None;
        }
        proof {
            assert(stem.take(i + 1).drop_last() =~= stem.take(i as int));
            lemma_pow10(i as nat);
        }
        value = value * 10 + (b - 48) as u128;
        i = i + 1;
    }
    assert(stem.take(i as int) =~= stem);
    if value <= u64::MAX as u128 {
        Some(value as u64)
    } else {
        None
    }
}

/// Powers of ten up to the twentieth fit 128 bits with room to spare.
proof fn lemma_pow10(i: nat)
    requires
        i < SEQ_DIGITS,
    ensures
        vstd::arithmetic::power::pow(10, i + 1) == 10 * vstd::arithmetic::power::pow(10, i),
        vstd::arithmetic::power::pow(10, i) <= 0x1_0000_0000_0000_0000_0000_0000,
    decreases i,
{
    reveal(vstd::arithmetic::power::pow);
    if i > 0 {
        lemma_pow10_bound(i);
    }
}

proof fn lemma_pow10_bound(i: nat)
    requires
        i <= SEQ_DIGITS,
    ensures
        vstd::arithmetic::power::pow(10, i) <= 100_000_000_000_000_000_000,
{
    vstd::arithmetic::power::lemma_pow_increases(10, i, 20);
    assert(vstd::arithmetic::power::pow(10, 20) == 100_000_000_000_000_000_000) by {
        reveal_with_fuel(vstd::arithmetic::power::pow, 21);
    }
}

/// Digits written with a fixed width read back as the number.
proof fn lemma_padded(n: nat, width: nat)
    requires
        n < vstd::arithmetic::power::pow(10, width),
    ensures
        padded(n, width).len() == width,
        forall|i: int| 0 <= i < width ==> 48 <= #[trigger] padded(n, width)[i] as int <= 57,
        digits_value(padded(n, width).map_values(|c: char| c as u8)) == n,
    decreases width,
{
    reveal(vstd::arithmetic::power::pow);
    let narrow = |c: char| c as u8;
    if width > 0 {
        let w = (width - 1) as nat;
        assert(n / 10 < vstd::arithmetic::power::pow(10, w)) by {
            assert(vstd::arithmetic::power::pow(10, width) == 10 * vstd::arithmetic::power::pow(
                10,
                w,
            ));
        }
        lemma_padded(n / 10, w);
        let head = padded(n / 10, w);
        let last = text::digit(n % 10);
        let bytes = padded(n, width).map_values(narrow);
        assert(bytes.drop_last() =~= head.map_values(narrow));
        assert(bytes.last() == last as u8);
        assert(last as u8 == 48 + n % 10);
    }
}

/// A published payload is found again under the number it was written with.
pub proof fn law_names_round_trip(seq: u64)
    ensures
        seq_in(vstd::utf8::encode_utf8(payload_name(seq))) == Some(seq),
{
    lemma_pow10_20();
    lemma_padded(seq as nat, SEQ_DIGITS as nat);
    let stem = padded(seq as nat, SEQ_DIGITS as nat);
    reveal_strlit(".otlp");
    let suffix = vstd::utf8::encode_utf8(PAYLOAD_SUFFIX@);
    assert(vstd::utf8::is_ascii_chars(stem)) by {
        assert forall|i: int| 0 <= i < stem.len() implies (#[trigger] stem[i] as int)
            < 128 by {
            assert(48 <= stem[i] as int <= 57);
        }
    }
    vstd::utf8::is_ascii_chars_encode_utf8(stem);
    text::lemma_utf8_concat(stem, PAYLOAD_SUFFIX@);
    let name = vstd::utf8::encode_utf8(payload_name(seq));
    let bytes = vstd::utf8::encode_utf8(stem);
    assert(bytes =~= stem.map_values(|c: char| c as u8));
    assert(name.take(name.len() - suffix.len()) =~= bytes);
    assert(name.skip(name.len() - suffix.len()) =~= suffix);
    assert forall|i: int| 0 <= i < bytes.len() implies is_digit(#[trigger] bytes[i]) by {
        assert(48 <= stem[i] as int <= 57);
    }
}

proof fn lemma_pow10_20()
    ensures
        vstd::arithmetic::power::pow(10, 20) == 100_000_000_000_000_000_000,
{
    reveal_with_fuel(vstd::arithmetic::power::pow, 21);
}

/// What a file in the spool directory is.
#[derive(Debug, Clone, Copy, PartialEq, Eq, Structural)]
pub enum SpoolEntry {
    /// A write that never finished; to be removed.
    Stray,
    /// A published payload.
    Payload(u64),
    /// None of the spool's files.
    Foreign,
}

/// What a file is, by its name.
pub open spec fn entry_of(name: Seq<u8>) -> SpoolEntry {
    if ends_with(name, vstd::utf8::encode_utf8(TMP_SUFFIX@)) {
        SpoolEntry::Stray
    } else {
        match seq_in(name) {
            Some(seq) => SpoolEntry::Payload(seq),
            None => SpoolEntry::Foreign,
        }
    }
}

/// What a file in the spool directory is, by its name.
pub fn classify(name: &str) -> (r: SpoolEntry)
    ensures
        r == entry_of(vstd::utf8::encode_utf8(name@)),
{
    if has_suffix(name.as_bytes(), TMP_SUFFIX.as_bytes()) {
        SpoolEntry::Stray
    } else {
        match parse_seq(name) {
            Some(seq) => SpoolEntry::Payload(seq),
            None => SpoolEntry::Foreign,
        }
    }
}

/// A payload that is being written counts as nothing else.
pub proof fn law_unfinished_writes_are_stray(seq: u64)
    ensures
        entry_of(vstd::utf8::encode_utf8(tmp_name_of(seq))) == SpoolEntry::Stray,
{
    text::lemma_utf8_concat(payload_name(seq), TMP_SUFFIX@);
    let name = vstd::utf8::encode_utf8(tmp_name_of(seq));
    let suffix = vstd::utf8::encode_utf8(TMP_SUFFIX@);
    assert(name.skip(name.len() - suffix.len()) =~= suffix);
}

/// A published payload is recovered as that payload.
pub proof fn law_published_payloads_are_recovered(seq: u64)
    ensures
        entry_of(vstd::utf8::encode_utf8(payload_name(seq))) == SpoolEntry::Payload(seq),
{
    law_names_round_trip(seq);
    let stem = padded(seq as nat, SEQ_DIGITS as nat);
    text::lemma_utf8_concat(stem, PAYLOAD_SUFFIX@);
    let name = vstd::utf8::encode_utf8(payload_name(seq));
    let otlp = vstd::utf8::encode_utf8(PAYLOAD_SUFFIX@);
    let tmp = vstd::utf8::encode_utf8(TMP_SUFFIX@);
    reveal_strlit(".otlp");
    reveal_strlit(".tmp");
    vstd::utf8::is_ascii_chars_encode_utf8(PAYLOAD_SUFFIX@);
    vstd::utf8::is_ascii_chars_encode_utf8(TMP_SUFFIX@);
    assert(name[name.len() - 1] == otlp[otlp.len() - 1]);
    if ends_with(name, tmp) {
        assert(name.skip(name.len() - tmp.len())[2] == tmp[2]);
        assert(name[name.len() - 2] == tmp[2]);
        assert(name[name.len() - 2] == otlp[3]);
    }
}

/// The books of a spool.
#[verifier::ext_equal]
pub struct SpoolBooks {
    /// The number of the next payload.
    pub next_seq: int,
    /// Bytes published and reserved.
    pub total: int,
    /// Published payloads and their sizes.
    pub pending: Map<u64, u64>,
}

/// The books after some files were found, in the order they were found.
pub open spec fn recovered(files: Seq<(String, u64)>) -> SpoolBooks
    decreases files.len(),
{
    if files.len() == 0 {
        SpoolBooks { next_seq: 0, total: 0, pending: Map::empty() }
    } else {
        let before = recovered(files.drop_last());
        let (name, len) = files.last();
        match entry_of(vstd::utf8::encode_utf8(name@)) {
            SpoolEntry::Payload(seq) => SpoolBooks {
                next_seq: if seq + 1 > before.next_seq {
                    seq + 1
                } else {
                    before.next_seq
                },
                total: before.total + len,
                pending: before.pending.insert(seq, len),
            },
            _ => before,
        }
    }
}

/// The bookkeeping of a bounded spool.
pub struct Spool {
    max_bytes: u64,
    next_seq: u128,
    total_bytes: u64,
    pending: BTreeMap<u64, u64>,
}

/// Room that is set aside for a payload until its write is reported.
#[derive(Debug)]
pub struct Reservation {
    seq: u64,
    len: u64,
}

impl Reservation {
    /// The payload's number.
    pub closed spec fn number(self) -> u64 {
        self.seq
    }

    /// The payload's size.
    pub closed spec fn size(self) -> u64 {
        self.len
    }

    /// The payload's number.
    pub fn seq(&self) -> (r: u64)
        ensures
            r == self.number(),
    {
        self.seq
    }
}

/// How an attempt to hand on the oldest payload ended.
#[derive(Debug, Clone, Copy, PartialEq, Eq, Structural)]
pub enum DrainAttempt {
    /// Its file could not be read.
    Unreadable,
    /// The destination did not take it.
    Refused,
    /// The destination took it.
    Forwarded,
}

impl Spool {
    /// The books.
    pub closed spec fn books(self) -> SpoolBooks {
        SpoolBooks {
            next_seq: self.next_seq as int,
            total: self.total_bytes as int,
            pending: self.pending@,
        }
    }

    /// Most bytes that may be held.
    pub closed spec fn cap(self) -> u64 {
        self.max_bytes
    }

    /// Opens the books over the files that a directory holds.
    pub fn open(files: &Vec<(String, u64)>, max_bytes: u64) -> (s: Self)
        requires
            recovered(files@).total <= u64::MAX,
        ensures
            s.books() == recovered(files@),
            s.cap() == max_bytes,
    {
        let mut pending: BTreeMap<u64, u64> = BTreeMap::new();
        let mut total_bytes: u64 = 0;
        let mut next_seq: u128 = 0;
        let mut i: usize = 0;
        while i < files.len()
            invariant
                i <= files@.len(),
                recovered(files@).total <= u64::MAX,
                next_seq == recovered(files@.take(i as int)).next_seq,
                next_seq <= 0x1_0000_0000_0000_0000,
                total_bytes == recovered(files@.take(i as int)).total,
                pending@ == recovered(files@.take(i as int)).pending,
            decreases files@.len() - i,
        {
            proof {
                assert(files@.take(i + 1).drop_last() =~= files@.take(i as int));
                lemma_recovered_grows(files@, i + 1);
            }
            let len: u64 = files[i].1;
            if let SpoolEntry::Payload(seq) = classify(files[i].0.as_str()) {
                pending.insert(seq, len);
                total_bytes = total_bytes + len;
                if seq as u128 + 1 > next_seq {
                    next_seq = seq as u128 + 1;
                }
            }
            i = i + 1;
        }
        assert(files@.take(i as int) =~= files@);
        Spool { max_bytes, next_seq, total_bytes, pending }
    }

    /// Number of payloads and bytes held.
    pub fn stats(&self) -> (r: (usize, u64))
        ensures
            r.0 == self.books().pending.len(),
            r.1 == self.books().total,
    {
        (self.pending.len(), self.total_bytes)
    }

    /// Reserves room for a payload under the next number. A payload that does
    /// not fit is refused; nothing is evicted for it.
    pub fn reserve(&mut self, len: u64) -> (r: Result<Reservation, SpoolError>)
        ensures
            final(self).cap() == old(self).cap(),
            if old(self).books().total + len > old(self).cap() {
                &&& r matches Err(SpoolError::Full { current, max })
                &&& current == old(self).books().total
                &&& max == old(self).cap()
                &&& final(self).books() == old(self).books()
            } else if old(self).books().next_seq > u64::MAX {
                r matches Err(SpoolError::Io(_)) && final(self).books() == old(self).books()
            } else {
                &&& r matches Ok(res)
                &&& res.number() == old(self).books().next_seq
                &&& res.size() == len
                &&& final(self).books() == reserved(old(self).books(), len)
            },
    {
        if self.total_bytes > self.max_bytes || len > self.max_bytes - self.total_bytes {
            return Err(SpoolError::Full { current: self.total_bytes, max: self.max_bytes });
        }
        if self.next_seq > u64::MAX as u128 {
            return Err(SpoolError::Io("sequence numbers exhausted".to_owned()));
        }
        let seq: u64 = self.next_seq as u64;
        self.next_seq = self.next_seq + 1;
        self.total_bytes = self.total_bytes + len;
        Ok(Reservation { seq, len })
    }

    /// Settles a reservation: a written payload is published, a failed write
    /// gives its room back.
    pub fn settle(&mut self, res: Reservation, written: Result<(), String>) -> (r: Result<
        u64,
        SpoolError,
    >)
        ensures
            final(self).cap() == old(self).cap(),
            match written {
                Ok(()) => r == Ok::<u64, SpoolError>(res.number()) && final(self).books()
                    == published(old(self).books(), res.number(), res.size()),
                Err(e) => r == Err::<u64, SpoolError>(SpoolError::Io(e)) && final(self).books()
                    == released(old(self).books(), res.size()),
            },
    {
        match written {
            Ok(()) => {
                self.pending.insert(res.seq, res.len);
                Ok(res.seq)
            },
            Err(e) => {
                self.total_bytes = self.total_bytes.saturating_sub(res.len);
                Err(SpoolError::Io(e))
            },
        }
    }

    /// The oldest published payload and its size.
    pub fn oldest(&self) -> (r: Option<(u64, u64)>)
        ensures
            match r {
                Some((seq, len)) => is_oldest(self.books(), seq) && self.books().pending[seq]
                    == len,
                None => self.books().pending.dom() =~= Set::<u64>::empty(),
            },
    {
        for kv in it: self.pending.iter()
            invariant
                it.index() == 0,
                it.seq().len() == self.pending@.dom().len(),
                vstd::std_specs::btree::increasing_seq(
                    it.seq().map_values(|kv: (&u64, &u64)| *kv.0),
                ),
                forall|k: u64|
                    #[trigger] self.pending@.contains_key(k) ==> it.seq().contains(
                        (&k, &self.pending@[k]),
                    ),
                forall|i: int|
                    0 <= i < it.seq().len() ==> self.pending@.contains_key(
                        *(#[trigger] it.seq()[i]).0,
                    ) && self.pending@[*it.seq()[i].0] == *it.seq()[i].1,
        {
            proof {
                lemma_first_is_least(self.pending@, it.seq());
            }
            return Some((*kv.0, *kv.1));
        }
        proof {
            assert(self.pending@.dom().len() == 0);
            assert(self.pending@.dom() =~= Set::<u64>::empty());
        }
        None
    }

    /// Settles an attempt to hand on a payload: only one that was taken leaves
    /// the spool.
    pub fn drained(&mut self, seq: u64, len: u64, attempt: DrainAttempt) -> (r: DrainOutcome)
        ensures
            final(self).cap() == old(self).cap(),
            match attempt {
                DrainAttempt::Forwarded => r == DrainOutcome::Delivered && final(self).books()
                    == delivered(old(self).books(), seq, len),
                _ => r == DrainOutcome::Retry && final(self).books() == old(self).books(),
            },
    {
        match attempt {
            DrainAttempt::Forwarded => {
                if self.pending.remove(&seq).is_some() {
                    self.total_bytes = self.total_bytes.saturating_sub(len);
                }
                proof {
                    if !old(self).pending@.contains_key(seq) {
                        assert(old(self).pending@.remove(seq) =~= old(self).pending@);
                    }
                }
                DrainOutcome::Delivered
            },
            _ => DrainOutcome::Retry,
        }
    }
}

proof fn lemma_recovered_grows(files: Seq<(String, u64)>, n: int)
    requires
        0 <= n <= files.len(),
    ensures
        0 <= recovered(files.take(n)).total <= recovered(files).total,
    decreases files.len(),
{
    if n < files.len() {
        lemma_recovered_grows(files.drop_last(), n);
        assert(files.drop_last().take(n) =~= files.take(n));
    } else {
        assert(files.take(n) =~= files);
        if files.len() > 0 {
            lemma_recovered_grows(files.drop_last(), n - 1);
        }
    }
}

/// Whether a published payload is older than all others.
pub open spec fn is_oldest(b: SpoolBooks, seq: u64) -> bool {
    b.pending.contains_key(seq) && forall|k: u64| #[trigger] b.pending.contains_key(k) ==> seq <= k
}

proof fn lemma_first_is_least(m: Map<u64, u64>, all: Seq<(&u64, &u64)>)
    requires
        all.len() > 0,
        vstd::std_specs::btree::increasing_seq(all.map_values(|kv: (&u64, &u64)| *kv.0)),
        forall|k: u64| #[trigger] m.contains_key(k) ==> all.contains((&k, &m[k])),
    ensures
        forall|k: u64| #[trigger] m.contains_key(k) ==> *all[0].0 <= k,
{
    broadcast use vstd::laws_cmp::group_laws_cmp;

    let keys = all.map_values(|kv: (&u64, &u64)| *kv.0);
    assert(vstd::laws_cmp::obeys_cmp::<u64>());
    assert forall|k: u64| #[trigger] m.contains_key(k) implies *all[0].0 <= k by {
        let i = choose|i: int| 0 <= i < all.len() && all[i] == (&k, &m[k]);
        assert(keys[i] == k);
        assert(keys[0] == *all[0].0);
        if i > 0 {
            assert(vstd::std_specs::cmp::OrdSpec::cmp_spec(&keys[0], &keys[i]) is Less);
        }
    }
}

/// The books with room reserved for a payload.
pub open spec fn reserved(b: SpoolBooks, len: u64) -> SpoolBooks {
    SpoolBooks { next_seq: b.next_seq + 1, total: b.total + len, ..b }
}

/// The books with a reserved payload published.
pub open spec fn published(b: SpoolBooks, seq: u64, len: u64) -> SpoolBooks {
    SpoolBooks { pending: b.pending.insert(seq, len), ..b }
}

/// A total from which some bytes are taken, down to nothing.
pub open spec fn less(total: int, len: u64) -> int {
    if total > len {
        total - len
    } else {
        0
    }
}

/// The books with a reservation given back.
pub open spec fn released(b: SpoolBooks, len: u64) -> SpoolBooks {
    SpoolBooks { total: less(b.total, len), ..b }
}

/// The books with a payload delivered.
pub open spec fn delivered(b: SpoolBooks, seq: u64, len: u64) -> SpoolBooks {
    if b.pending.contains_key(seq) {
        SpoolBooks { pending: b.pending.remove(seq), total: less(b.total, len), ..b }
    } else {
        b
    }
}

/// The sizes of published payloads, together.
pub open spec fn held(m: Map<u64, u64>) -> nat
    decreases m.dom().len(),
    when m.dom().finite()
{
    if m.dom().len() == 0 {
        0
    } else {
        let k = m.dom().choose();
        held(m.remove(k)) + m[k] as nat
    }
}

/// Any published payload can be taken out of the sum.
proof fn lemma_held_remove(m: Map<u64, u64>, k: u64)
    requires
        m.dom().finite(),
        m.contains_key(k),
    ensures
        held(m) == held(m.remove(k)) + m[k],
    decreases m.dom().len(),
{
    let c = m.dom().choose();
    assert(m.dom().contains(k));
    assert(m.dom().len() > 0);
    assert(m.dom().contains(c));
    if c != k {
        assert(m.remove(c).contains_key(k));
        lemma_held_remove(m.remove(c), k);
        assert(m.remove(k).contains_key(c));
        lemma_held_remove(m.remove(k), c);
        assert(m.remove(c).remove(k) =~= m.remove(k).remove(c));
    }
}

/// Whether the books add up: the total is what is published and what is
/// reserved, and every published payload has a number that was given out.
pub open spec fn add_up(b: SpoolBooks, in_flight: nat) -> bool {
    &&& b.pending.dom().finite()
    &&& b.total == held(b.pending) + in_flight
    &&& forall|k: u64| #[trigger] b.pending.contains_key(k) ==> k < b.next_seq
}

/// Whether no two files of a directory hold the same payload.
pub open spec fn distinct(files: Seq<(String, u64)>) -> bool {
    forall|i: int, j: int|
        0 <= i < j < files.len() && entry_of(
            vstd::utf8::encode_utf8((#[trigger] files[i]).0@),
        ) is Payload ==> entry_of(vstd::utf8::encode_utf8(files[i].0@)) != entry_of(
            vstd::utf8::encode_utf8((#[trigger] files[j]).0@),
        )
}

/// Every recovered payload has the size of a file found.
proof fn lemma_recovered_from(files: Seq<(String, u64)>, seq: u64)
    requires
        recovered(files).pending.contains_key(seq),
    ensures
        exists|i: int|
            0 <= i < files.len() && entry_of(vstd::utf8::encode_utf8((#[trigger] files[i]).0@))
                == SpoolEntry::Payload(seq),
    decreases files.len(),
{
    let last = entry_of(vstd::utf8::encode_utf8(files.last().0@));
    if last == SpoolEntry::Payload(seq) {
        assert(entry_of(vstd::utf8::encode_utf8(files[files.len() - 1].0@)) == SpoolEntry::Payload(
            seq,
        ));
    } else {
        lemma_recovered_from(files.drop_last(), seq);
        let i = choose|i: int|
            0 <= i < files.drop_last().len() && entry_of(
                vstd::utf8::encode_utf8((#[trigger] files.drop_last()[i]).0@),
            ) == SpoolEntry::Payload(seq);
        assert(files[i] == files.drop_last()[i]);
    }
}

/// Books opened over a directory add up, with nothing in flight.
pub proof fn law_recovery_adds_up(files: Seq<(String, u64)>)
    requires
        distinct(files),
    ensures
        add_up(recovered(files), 0),
    decreases files.len(),
{
    if files.len() == 0 {
        assert(recovered(files).pending.dom() =~= Set::<u64>::empty());
    } else {
        let rest = files.drop_last();
        assert forall|i: int, j: int|
            0 <= i < j < rest.len() && entry_of(
                vstd::utf8::encode_utf8((#[trigger] rest[i]).0@),
            ) is Payload implies entry_of(vstd::utf8::encode_utf8(rest[i].0@)) != entry_of(
            vstd::utf8::encode_utf8((#[trigger] rest[j]).0@),
        ) by {
            assert(rest[i] == files[i] && rest[j] == files[j]);
        }
        law_recovery_adds_up(rest);
        let before = recovered(rest);
        if let SpoolEntry::Payload(seq) = entry_of(vstd::utf8::encode_utf8(files.last().0@)) {
            if before.pending.contains_key(seq) {
                lemma_recovered_from(rest, seq);
                let i = choose|i: int|
                    0 <= i < rest.len() && entry_of(
                        vstd::utf8::encode_utf8((#[trigger] rest[i]).0@),
                    ) == SpoolEntry::Payload(seq);
                assert(files[i] == rest[i]);
                assert(files[files.len() - 1] == files.last());
            }
            let m = before.pending.insert(seq, files.last().1);
            lemma_held_remove(m, seq);
            assert(m.remove(seq) =~= before.pending);
        }
    }
}

/// Reserving, publishing, giving back and delivering keep the books adding up.
pub proof fn law_books_keep_adding_up(b: SpoolBooks, in_flight: nat, seq: u64, len: u64)
    requires
        add_up(b, in_flight),
    ensures
        add_up(reserved(b, len), in_flight + len as nat),
        len <= in_flight && seq < b.next_seq && !b.pending.contains_key(seq) ==> add_up(
            published(b, seq, len),
            (in_flight - len) as nat,
        ),
        len <= in_flight ==> add_up(released(b, len), (in_flight - len) as nat),
        b.pending.contains_key(seq) && b.pending[seq] == len ==> add_up(
            delivered(b, seq, len),
            in_flight,
        ),
{
    if !b.pending.contains_key(seq) {
        let m = b.pending.insert(seq, len);
        lemma_held_remove(m, seq);
        assert(m.remove(seq) =~= b.pending);
    } else {
        lemma_held_remove(b.pending, seq);
    }
}

/// Nothing is evicted: reserving and giving back leave every published payload
/// where it is, and publishing or delivering one leaves all others.
pub proof fn law_nothing_is_evicted(b: SpoolBooks, seq: u64, len: u64, other: u64)
    requires
        b.pending.contains_key(other),
        other != seq,
    ensures
        reserved(b, len).pending == b.pending,
        released(b, len).pending == b.pending,
        published(b, seq, len).pending.contains_key(other),
        published(b, seq, len).pending[other] == b.pending[other],
        delivered(b, seq, len).pending.contains_key(other),
        delivered(b, seq, len).pending[other] == b.pending[other],
{
}

/// First in, first out: a payload reserved now is drained after everything
/// that is published already.
pub proof fn law_first_in_first_out(b: SpoolBooks, in_flight: nat, len: u64, earlier: u64)
    requires
        add_up(b, in_flight),
        b.next_seq <= u64::MAX,
        b.pending.contains_key(earlier),
    ensures
        !is_oldest(published(reserved(b, len), b.next_seq as u64, len), b.next_seq as u64),
{
    let after = published(reserved(b, len), b.next_seq as u64, len);
    assert(after.pending.contains_key(earlier));
}

/// The sizes of the payload files of a directory, together.
pub open spec fn payload_bytes(files: Seq<(String, u64)>) -> nat
    decreases files.len(),
{
    if files.len() == 0 {
        0
    } else {
        payload_bytes(files.drop_last()) + (if entry_of(
            vstd::utf8::encode_utf8(files.last().0@),
        ) is Payload {
            files.last().1 as nat
        } else {
            0
        })
    }
}

/// What recovery counts: the payload files, each under its number and with its
/// size, and nothing else. The next number is one above the largest, or zero
/// where there is none.
pub proof fn law_recovery_counts(files: Seq<(String, u64)>)
    requires
        distinct(files),
    ensures
        ({
            let b = recovered(files);
            &&& b.total == payload_bytes(files)
            &&& forall|i: int|
                0 <= i < files.len() ==> (entry_of(
                    vstd::utf8::encode_utf8((#[trigger] files[i]).0@),
                ) matches SpoolEntry::Payload(seq) ==> b.pending.contains_key(seq)
                    && b.pending[seq] == files[i].1)
            &&& forall|seq: u64| #[trigger]
                b.pending.contains_key(seq) ==> seq < b.next_seq && exists|i: int|
                    0 <= i < files.len() && entry_of(
                        vstd::utf8::encode_utf8((#[trigger] files[i]).0@),
                    ) == SpoolEntry::Payload(seq)
            &&& b.next_seq == 0 || b.pending.contains_key((b.next_seq - 1) as u64)
            &&& 0 <= b.next_seq <= u64::MAX + 1
        }),
    decreases files.len(),
{
    let b = recovered(files);
    if files.len() > 0 {
        let rest = files.drop_last();
        assert forall|i: int| 0 <= i < rest.len() implies rest[i] == files[i] by {}
        assert(distinct(rest)) by {
            assert forall|i: int, j: int|
                0 <= i < j < rest.len() && entry_of(
                    vstd::utf8::encode_utf8((#[trigger] rest[i]).0@),
                ) is Payload implies entry_of(vstd::utf8::encode_utf8(rest[i].0@)) != entry_of(
                vstd::utf8::encode_utf8((#[trigger] rest[j]).0@),
            ) by {
                assert(rest[i] == files[i] && rest[j] == files[j]);
            }
        }
        law_recovery_counts(rest);
        let before = recovered(rest);
        let last = files.len() - 1;
        assert forall|i: int| 0 <= i < files.len() implies (entry_of(
            vstd::utf8::encode_utf8((#[trigger] files[i]).0@),
        ) matches SpoolEntry::Payload(seq) ==> b.pending.contains_key(seq) && b.pending[seq]
            == files[i].1) by {
            if i < last {
                assert(rest[i] == files[i]);
                assert(entry_of(vstd::utf8::encode_utf8(files[i].0@)) is Payload ==> entry_of(
                    vstd::utf8::encode_utf8(files[i].0@),
                ) != entry_of(vstd::utf8::encode_utf8(files[last].0@)));
            }
        }
        assert forall|seq: u64| #[trigger] b.pending.contains_key(seq) implies seq < b.next_seq
            && exists|i: int|
            0 <= i < files.len() && entry_of(vstd::utf8::encode_utf8((#[trigger] files[i]).0@))
                == SpoolEntry::Payload(seq) by {
            if entry_of(vstd::utf8::encode_utf8(files[last].0@)) != SpoolEntry::Payload(seq) {
                assert(before.pending.contains_key(seq));
            }
            lemma_recovered_from(files, seq);
        }
    }
}

/// The books with a payload pushed: reserved and published under the next
/// number.
pub open spec fn pushed(b: SpoolBooks, len: u64) -> SpoolBooks {
    published(reserved(b, len), b.next_seq as u64, len)
}

/// The books with several payloads pushed, one after another.
pub open spec fn pushed_all(b: SpoolBooks, lens: Seq<u64>) -> SpoolBooks
    decreases lens.len(),
{
    if lens.len() == 0 {
        b
    } else {
        pushed(pushed_all(b, lens.drop_last()), lens.last())
    }
}

/// The books with the first `n` of those payloads delivered, where the first
/// of them has the number `first`.
pub open spec fn delivered_first(b: SpoolBooks, first: int, lens: Seq<u64>, n: nat) -> SpoolBooks
    decreases n,
{
    if n == 0 {
        b
    } else {
        delivered(
            delivered_first(b, first, lens, (n - 1) as nat),
            (first + n - 1) as u64,
            lens[n - 1],
        )
    }
}

proof fn lemma_pushed_all(b: SpoolBooks, lens: Seq<u64>)
    requires
        b.pending.dom() =~= Set::<u64>::empty(),
        0 <= b.next_seq,
        b.next_seq + lens.len() <= u64::MAX + 1,
    ensures
        pushed_all(b, lens).next_seq == b.next_seq + lens.len(),
        forall|k: u64| #[trigger]
            pushed_all(b, lens).pending.contains_key(k) <==> b.next_seq <= k < b.next_seq
                + lens.len(),
        forall|k: u64| #[trigger]
            pushed_all(b, lens).pending.contains_key(k) ==> pushed_all(b, lens).pending[k]
                == lens[k - b.next_seq],
    decreases lens.len(),
{
    if lens.len() > 0 {
        lemma_pushed_all(b, lens.drop_last());
    }
}

proof fn lemma_delivered_first(b: SpoolBooks, lens: Seq<u64>, n: nat)
    requires
        b.pending.dom() =~= Set::<u64>::empty(),
        0 <= b.next_seq,
        b.next_seq + lens.len() <= u64::MAX + 1,
        n <= lens.len(),
    ensures
        ({
            let left = delivered_first(pushed_all(b, lens), b.next_seq, lens, n);
            &&& forall|k: u64| #[trigger]
                left.pending.contains_key(k) <==> b.next_seq + n <= k < b.next_seq + lens.len()
            &&& forall|k: u64| #[trigger]
                left.pending.contains_key(k) ==> left.pending[k] == lens[k - b.next_seq]
        }),
    decreases n,
{
    if n == 0 {
        lemma_pushed_all(b, lens);
    } else {
        lemma_delivered_first(b, lens, (n - 1) as nat);
        let before = delivered_first(pushed_all(b, lens), b.next_seq, lens, (n - 1) as nat);
        let seq = (b.next_seq + n - 1) as u64;
        assert(before.pending.contains_key(seq));
        let left = delivered_first(pushed_all(b, lens), b.next_seq, lens, n);
        assert(left.pending == before.pending.remove(seq));
        assert forall|k: u64| #[trigger] left.pending.contains_key(k) <==> b.next_seq + n <= k
            < b.next_seq + lens.len() by {
            assert(left.pending.contains_key(k) <==> before.pending.contains_key(k) && k != seq);
        }
        assert forall|k: u64| #[trigger] left.pending.contains_key(k) implies left.pending[k]
            == lens[k - b.next_seq] by {
            assert(before.pending.contains_key(k));
        }
    }
}

/// Payloads are handed on in the order they were pushed: of several pushed to
/// an empty spool, after the first `n` are delivered the oldest is the one
/// pushed next, with its size; after all of them the spool is empty.
pub proof fn law_push_order_is_delivery_order(b: SpoolBooks, lens: Seq<u64>, n: nat)
    requires
        b.pending.dom() =~= Set::<u64>::empty(),
        0 <= b.next_seq,
        b.next_seq + lens.len() <= u64::MAX + 1,
        n <= lens.len(),
    ensures
        ({
            let left = delivered_first(pushed_all(b, lens), b.next_seq, lens, n);
            if n < lens.len() {
                is_oldest(left, (b.next_seq + n) as u64) && left.pending[(b.next_seq + n) as u64]
                    == lens[n as int]
            } else {
                left.pending.dom() =~= Set::<u64>::empty()
            }
        }),
{
    lemma_delivered_first(b, lens, n);
    let left = delivered_first(pushed_all(b, lens), b.next_seq, lens, n);
    if n < lens.len() {
        assert(left.pending.contains_key((b.next_seq + n) as u64));
    } else {
        assert forall|k: u64| !left.pending.dom().contains(k) by {
            assert(!left.pending.contains_key(k));
        }
    }
}

/// A failed write leaves the spool as it was, but for the number it used up.
pub proof fn law_failed_write_is_undone(b: SpoolBooks, len: u64)
    requires
        b.total >= 0,
    ensures
        released(reserved(b, len), len) == (SpoolBooks { next_seq: b.next_seq + 1, ..b }),
{
}

/// A payload that was spooled and delivered leaves nothing behind but the
/// number it used up.
pub proof fn law_delivery_is_complete(b: SpoolBooks, in_flight: nat, len: u64)
    requires
        add_up(b, in_flight),
        b.next_seq <= u64::MAX,
        0 <= b.next_seq,
    ensures
        delivered(
            published(reserved(b, len), b.next_seq as u64, len),
            b.next_seq as u64,
            len,
        ) == (SpoolBooks { next_seq: b.next_seq + 1, ..b }),
{
    let seq = b.next_seq as u64;
    assert(!b.pending.contains_key(seq));
    assert(b.pending.insert(seq, len).remove(seq) =~= b.pending);
}

/// Retry delays: exponential while the destination is down.
#[derive(Debug)]
pub struct Backoff {
    secs: u64,
}

impl Backoff {
    #[verifier::type_invariant]
    spec fn inv(self) -> bool {
        BACKOFF_BASE_SECS <= self.secs <= BACKOFF_MAX_SECS
    }

    /// The next delay, in seconds.
    pub closed spec fn delay(self) -> u64 {
        self.secs
    }

    pub fn new() -> (b: Self)
        ensures
            b.delay() == BACKOFF_BASE_SECS,
    {
        Backoff { secs: BACKOFF_BASE_SECS }
    }

    /// How many milliseconds to wait after an attempt. A delivery is followed
    /// at once by the next attempt, an empty spool is polled slowly, and a
    /// failure waits for the delay and a jitter, after which the delay doubles
    /// up to its bound. The jitter is taken from a clock's nanoseconds.
    pub fn after(&mut self, outcome: DrainOutcome, nanos: u32) -> (ms: u64)
        ensures
            match outcome {
                DrainOutcome::Delivered => ms == 0 && final(self).delay() == BACKOFF_BASE_SECS,
                DrainOutcome::Idle => ms == IDLE_POLL_SECS * 1000 && final(self).delay() == old(self).delay(),
                DrainOutcome::Retry => ms == old(self).delay() * 1000 + jitter_of(nanos) && final(self).delay() == doubled(old(self).delay()),
            },
    {
        proof {
            use_type_invariant(&*self);
        }
        match outcome {
            DrainOutcome::Delivered => {
                self.secs = BACKOFF_BASE_SECS;
                0
            },
            DrainOutcome::Idle => IDLE_POLL_SECS * 1000,
            DrainOutcome::Retry => {
                let ms: u64 = self.secs * 1000 + jitter(nanos);
                let next: u64 = if self.secs * 2 > BACKOFF_MAX_SECS {
                    BACKOFF_MAX_SECS
                } else {
                    self.secs * 2
                };
                self.secs = next;
                ms
            },
        }
    }
}

/// A delay that has doubled, up to the bound.
pub open spec fn doubled(secs: u64) -> u64 {
    if secs * 2 > BACKOFF_MAX_SECS {
        BACKOFF_MAX_SECS
    } else {
        (secs * 2) as u64
    }
}

/// Milliseconds of jitter, below a quarter of a second.
pub open spec fn jitter_of(nanos: u32) -> u64 {
    (nanos % 250) as u64
}

/// Milliseconds of jitter, so that a fleet does not retry in lockstep.
pub fn jitter(nanos: u32) -> (ms: u64)
    ensures
        ms == jitter_of(nanos),
        ms < 250,
{
    (nanos % 250) as u64
}

/// A payload is named by its number in twenty digits, highest first and filled
/// up with zeros, and `.otlp`; while it is written `.tmp` stands behind that.
pub proof fn law_names_are_twenty_digits(seq: u64, i: int)
    requires
        0 <= i < 20,
    ensures
        payload_name(seq).len() == 25,
        payload_name(seq).skip(20) == ".otlp"@,
        payload_name(seq)[i] == (48 + seq as nat / (vstd::arithmetic::power::pow(
            10,
            (19 - i) as nat,
        ) as nat) % 10) as char,
        tmp_name_of(seq) == payload_name(seq) + ".tmp"@,
{
    lemma_padded_digits(seq as nat, 20, i);
    reveal_strlit(".otlp");
    assert(payload_name(seq).skip(20) =~= ".otlp"@);
}

proof fn lemma_padded_digits(n: nat, width: nat, i: int)
    requires
        0 <= i < width,
    ensures
        padded(n, width).len() == width,
        padded(n, width)[i] == (48 + n / (vstd::arithmetic::power::pow(
            10,
            (width - 1 - i) as nat,
        ) as nat) % 10) as char,
    decreases width,
{
    reveal(vstd::arithmetic::power::pow);
    if width > 1 {
        lemma_padded_digits(n / 10, (width - 1) as nat, if i < width - 1 {
            i
        } else {
            0
        });
    } else {
        assert(padded(n / 10, 0).len() == 0);
    }
    if i < width - 1 {
        let k = (width - 2 - i) as nat;
        let p = vstd::arithmetic::power::pow(10, k) as nat;
        vstd::arithmetic::power::lemma_pow_positive(10, k);
        assert(vstd::arithmetic::power::pow(10, k + 1) == 10 * vstd::arithmetic::power::pow(10, k));
        vstd::arithmetic::div_mod::lemma_div_denominator(n as int, 10, p as int);
    } else {
        assert(n / 1 == n);
    }
}

/// Only such a name is a payload: 25 bytes, twenty digits in front.
pub proof fn law_only_such_names_are_payloads(name: Seq<u8>)
    requires
        entry_of(name) is Payload,
    ensures
        name.len() == 25,
        forall|i: int| 0 <= i < 20 ==> 48 <= #[trigger] name[i] <= 57,
        name.skip(20) == vstd::utf8::encode_utf8(".otlp"@),
        entry_of(name)->Payload_0 == digits_value(name.take(20)),
{
    let suffix = vstd::utf8::encode_utf8(".otlp"@);
    reveal_strlit(".otlp");
    vstd::utf8::is_ascii_chars_encode_utf8(".otlp"@);
    assert(suffix.len() == 5);
    let stem = name.take(name.len() - suffix.len());
    assert forall|i: int| 0 <= i < 20 implies 48 <= #[trigger] name[i] <= 57 by {
        assert(is_digit(stem[i]));
    }
}

/// What happens to the books: a reservation takes the next number and its
/// bytes, publishing adds the payload under its number and takes no more
/// bytes, giving back returns the bytes, and a delivery takes out the payload
/// and returns its bytes. Nothing else changes.
pub proof fn law_what_happens_to_the_books(b: SpoolBooks, seq: u64, len: u64)
    requires
        b.total >= len,
    ensures
        reserved(b, len).next_seq == b.next_seq + 1,
        reserved(b, len).total == b.total + len,
        reserved(b, len).pending == b.pending,
        published(b, seq, len).next_seq == b.next_seq,
        published(b, seq, len).total == b.total,
        published(b, seq, len).pending == b.pending.insert(seq, len),
        released(b, len).next_seq == b.next_seq,
        released(b, len).total == b.total - len,
        released(b, len).pending == b.pending,
        b.pending.contains_key(seq) ==> {
            &&& delivered(b, seq, len).next_seq == b.next_seq
            &&& delivered(b, seq, len).total == b.total - len
            &&& delivered(b, seq, len).pending == b.pending.remove(seq)
        },
        !b.pending.contains_key(seq) ==> delivered(b, seq, len) == b,
{
}

/// While the destination is down the delay doubles, from one second up to half
/// a minute, with less than a quarter of a second of jitter on top.
pub proof fn law_delays_double(secs: u64, nanos: u32)
    requires
        1 <= secs <= 30,
    ensures
        secs <= 15 ==> doubled(secs) == 2 * secs,
        secs > 15 ==> doubled(secs) == 30,
        jitter_of(nanos) < 250,
        jitter_of(nanos) == nanos % 250,
        BACKOFF_BASE_SECS == 1,
        IDLE_POLL_SECS == 1,
{
}

/// A file is a stray write exactly where its name ends in `.tmp`.
pub proof fn law_tmp_files_are_stray(stem: Seq<u8>, name: Seq<u8>)
    ensures
        entry_of(stem + vstd::utf8::encode_utf8(".tmp"@)) == SpoolEntry::Stray,
        entry_of(name) == SpoolEntry::Stray ==> exists|s: Seq<u8>|
            name == #[trigger] (s + vstd::utf8::encode_utf8(".tmp"@)),
{
    let tmp = vstd::utf8::encode_utf8(".tmp"@);
    let whole = stem + tmp;
    assert(whole.skip(whole.len() - tmp.len()) =~= tmp);
    if entry_of(name) == SpoolEntry::Stray {
        let s = name.take(name.len() - tmp.len());
        assert(name =~= s + tmp);
    }
}

} // verus!
