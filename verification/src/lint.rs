//! Policy lint that bans unbounded nested repetition: patterns such as
//! `(a+)+` or `(?:\d+){3,}`, where an unbounded quantifier applies to a group
//! that itself contains an unbounded quantifier. Such patterns blow up the
//! compiled program and the cost per record, so they are rejected before they
//! reach a record.
//!
//! The scan knows escapes (`\x`), character classes (`[...]`), groups and
//! quantifiers. Anything else is a literal to it; the size limit of the regex
//! compiler is the backstop.

use vstd::prelude::*;

verus! {

/// What is wrong with a rejected pattern.
pub const NESTED_REPETITION: &'static str =
    "unbounded quantifier applied to a group containing an unbounded quantifier";

/// One element of a pattern, as far as the lint tells them apart.
#[derive(Debug, Clone, Copy, PartialEq, Eq, Structural)]
pub enum Token {
    /// `(`
    Open,
    /// `)` with the quantifier behind it; `unbounded` where it has no limit.
    Close { unbounded: bool },
    /// An unbounded quantifier on something other than a group.
    Repeat,
    /// Anything else.
    Other,
}

pub open spec fn is_digit(b: u8) -> bool {
    48 <= b <= 57
}

/// The offset behind the digits that start at `i`.
pub open spec fn digits_end(b: Seq<u8>, i: int) -> int
    decreases b.len() - i,
{
    if i < b.len() && is_digit(b[i]) {
        digits_end(b, i + 1)
    } else {
        i
    }
}

/// The brace quantifier at `i`: whether it is unbounded, and the offset behind
/// it. Only `{n}`, `{n,}` and `{n,m}` are quantifiers, and `{n,}` is unbounded;
/// any other brace is a literal.
pub open spec fn braces_at(b: Seq<u8>, i: int) -> Option<(bool, int)> {
    let n = digits_end(b, i + 1);
    if n == i + 1 || n >= b.len() {
        None
    } else if b[n] == 125 {
        Some((false, n + 1))
    } else if b[n] == 44 {
        let m = digits_end(b, n + 1);
        if m < b.len() && b[m] == 125 {
            Some((m == n + 1, m + 1))
        } else {
            None
        }
    } else {
        None
    }
}

/// The quantifier at `i`: whether it is unbounded, and the offset behind it;
/// a literal brace counts as taken.
pub open spec fn quantifier_of(b: Seq<u8>, i: int) -> (bool, int) {
    if i >= b.len() {
        (false, i)
    } else if b[i] == 42 || b[i] == 43 {
        (true, i + 1)
    } else if b[i] == 63 {
        (false, i + 1)
    } else if b[i] == 123 {
        match braces_at(b, i) {
            Some(q) => q,
            None => (false, i + 1),
        }
    } else {
        (false, i)
    }
}

/// The offset of the bracket that closes a character class whose members are
/// read from `i` on; an escaped member is never that bracket.
pub open spec fn class_close(b: Seq<u8>, i: int) -> int
    decreases b.len() + 1 - i,
{
    if i >= b.len() || b[i] == 93 {
        i
    } else if b[i] == 92 {
        class_close(b, i + 2)
    } else {
        class_close(b, i + 1)
    }
}

/// Where the members of the class that opens at `i` are read from: behind a
/// leading `^`, and behind a `]` that is the first member.
pub open spec fn class_start(b: Seq<u8>, i: int) -> int {
    let j = if i + 1 < b.len() && b[i + 1] == 94 {
        i + 2
    } else {
        i + 1
    };
    if j < b.len() && b[j] == 93 {
        j + 1
    } else {
        j
    }
}

/// The element at `i` and the offset behind it.
pub open spec fn token_at(b: Seq<u8>, i: int) -> (Token, int) {
    if b[i] == 92 {
        (Token::Other, i + 2)
    } else if b[i] == 91 {
        (Token::Other, class_close(b, class_start(b, i)) + 1)
    } else if b[i] == 40 {
        (Token::Open, i + 1)
    } else if b[i] == 41 {
        let (unbounded, next) = quantifier_of(b, i + 1);
        (Token::Close { unbounded }, next)
    } else if b[i] == 42 || b[i] == 43 {
        (Token::Repeat, i + 1)
    } else if b[i] == 123 {
        match braces_at(b, i) {
            Some((unbounded, next)) => (
                if unbounded {
                    Token::Repeat
                } else {
                    Token::Other
                },
                next,
            ),
            None => (Token::Other, i + 1),
        }
    } else {
        (Token::Other, i + 1)
    }
}

proof fn lemma_digits_end(b: Seq<u8>, i: int)
    requires
        i <= b.len(),
    ensures
        i <= digits_end(b, i) <= b.len(),
    decreases b.len() - i,
{
    if i < b.len() && is_digit(b[i]) {
        lemma_digits_end(b, i + 1);
    }
}

proof fn lemma_braces(b: Seq<u8>, i: int)
    requires
        0 <= i < b.len(),
    ensures
        braces_at(b, i) matches Some((u, next)) ==> i + 1 < next <= b.len(),
{
    lemma_digits_end(b, i + 1);
    let n = digits_end(b, i + 1);
    if n < b.len() {
        lemma_digits_end(b, n + 1);
    }
}

proof fn lemma_class_close(b: Seq<u8>, i: int)
    ensures
        class_close(b, i) >= i,
        class_close(b, i) >= b.len() || b[class_close(b, i)] == 93,
    decreases b.len() + 1 - i,
{
    if i < b.len() && b[i] != 93 {
        lemma_class_close(b, i + 1);
        lemma_class_close(b, i + 2);
    }
}

/// An element takes at least one byte.
pub proof fn lemma_token_advances(b: Seq<u8>, i: int)
    requires
        0 <= i < b.len(),
    ensures
        token_at(b, i).1 > i,
{
    lemma_braces(b, i);
    lemma_class_close(b, class_start(b, i));
    if i + 1 < b.len() {
        lemma_braces(b, i + 1);
    }
}

/// The elements of a pattern from `i` on.
pub open spec fn tokens(b: Seq<u8>, i: int) -> Seq<Token>
    decreases
            if i < b.len() {
                b.len() - i
            } else {
                0
            },
{
    if i < 0 || i >= b.len() {
        Seq::empty()
    } else {
        proof {
            lemma_token_advances(b, i);
        }
        let (t, next) = token_at(b, i);
        seq![t] + tokens(b, next)
    }
}

/// Whether an element repeats something without limit.
pub open spec fn repeats(t: Token) -> bool {
    t == Token::Repeat || t == Token::Close { unbounded: true }
}

/// Where the groups open that are not closed before element `k`, outermost
/// first. The pattern itself counts as a group that opens before its first
/// element.
pub open spec fn open_groups(toks: Seq<Token>, k: int) -> Seq<int>
    decreases k,
{
    if k <= 0 {
        seq![-1int]
    } else {
        let before = open_groups(toks, k - 1);
        match toks[k - 1] {
            Token::Open => before.push(k - 1),
            Token::Close { .. } => if before.len() > 0 {
                before.drop_last()
            } else {
                before
            },
            _ => before,
        }
    }
}

/// Whether anything strictly between two elements repeats without limit.
pub open spec fn repeats_between(toks: Seq<Token>, from: int, to: int) -> bool {
    exists|m: int| from < m < to && #[trigger] repeats(toks[m])
}

/// Whether element `k` closes a group under an unbounded quantifier although
/// something in the group already repeats without limit.
pub open spec fn nested_at(toks: Seq<Token>, k: int) -> bool {
    let groups = open_groups(toks, k);
    toks[k] == Token::Close { unbounded: true } && groups.len() > 0 && repeats_between(
        toks,
        groups.last(),
        k,
    )
}

/// Whether a pattern holds nested unbounded repetition.
pub open spec fn nested_repetition(b: Seq<u8>) -> bool {
    let toks = tokens(b, 0);
    exists|k: int| 0 <= k < toks.len() && #[trigger] nested_at(toks, k)
}

fn skip_digits(bytes: &[u8], from: usize) -> (r: usize)
    requires
        from <= bytes@.len(),
    ensures
        r == digits_end(bytes@, from as int),
        from <= r <= bytes@.len(),
{
    let mut i: usize = from;
    while i < bytes.len() && 48 <= bytes[i] && bytes[i] <= 57
        invariant
            from <= i <= bytes@.len(),
            digits_end(bytes@, from as int) == digits_end(bytes@, i as int),
        decreases bytes@.len() - i,
    {
        i = i + 1;
    }
    i
}

/// Parse `{n}`, `{n,}`, `{n,m}` at `pos`: whether it is unbounded, and the
/// bytes taken. Any other brace is a literal of one byte.
fn brace_quantifier(bytes: &[u8], pos: usize) -> (r: (bool, usize))
    requires
        pos < bytes@.len(),
    ensures
        match braces_at(bytes@, pos as int) {
            Some((unbounded, next)) => r.0 == unbounded && pos + r.1 == next,
            None => !r.0 && r.1 == 1,
        },
        1 <= r.1 <= bytes@.len() - pos,
{
    let len: usize = bytes.len();
    let n: usize = skip_digits(bytes, pos + 1);
    if n == pos + 1 || n >= len {
        return (false, 1);
    }
    if bytes[n] == 125 {
        return (false, n - pos + 1);
    }
    if bytes[n] == 44 {
        let m: usize = skip_digits(bytes, n + 1);
        if m < bytes.len() && bytes[m] == 125 {
            return (m == n + 1, m - pos + 1);
        }
    }
    (false, 1)
}

/// The quantifier that starts at `pos`: whether it is unbounded, and the bytes
/// taken.
fn quantifier_at(bytes: &[u8], pos: usize) -> (r: (bool, usize))
    requires
        pos <= bytes@.len(),
    ensures
        r.0 == quantifier_of(bytes@, pos as int).0,
        pos + r.1 == quantifier_of(bytes@, pos as int).1,
        pos + r.1 <= bytes@.len(),
{
    if pos >= bytes.len() {
        return (false, 0);
    }
    match bytes[pos] {
        42 | 43 => (true, 1),
        63 => (false, 1),
        123 => brace_quantifier(bytes, pos),
        _ => (false, 0),
    }
}

/// The offset behind the character class that opens at `pos`, or the end of
/// the pattern where nothing closes it.
fn skip_class(bytes: &[u8], pos: usize) -> (r: usize)
    requires
        pos < bytes@.len(),
        bytes@[pos as int] == 91,
    ensures
        pos < r <= bytes@.len(),
        tokens(bytes@, token_at(bytes@, pos as int).1) == tokens(bytes@, r as int),
{
    let len: usize = bytes.len();
    let mut i: usize = pos + 1;
    if i < len && bytes[i] == 94 {
        i = i + 1;
    }
    if i < len && bytes[i] == 93 {
        i = i + 1;
    }
    while i < len && bytes[i] != 93
        invariant
            pos < i <= len,
            len == bytes@.len(),
            class_close(bytes@, class_start(bytes@, pos as int)) == class_close(bytes@, i as int)
                || (i == len && class_close(bytes@, class_start(bytes@, pos as int)) >= len),
        decreases len - i,
    {
        proof {
            lemma_class_close(bytes@, i + 2);
        }
        if bytes[i] == 92 {
            if len - i >= 2 {
                i = i + 2;
            } else {
                i = len;
            }
        } else {
            i = i + 1;
        }
    }
    if i < len {
        i + 1
    } else {
        len
    }
}

/// The open groups stand in order, all of them before element `k`.
proof fn lemma_groups_bounds(toks: Seq<Token>, k: int)
    requires
        0 <= k <= toks.len(),
    ensures
        forall|j: int|
            0 <= j < open_groups(toks, k).len() ==> -1 <= #[trigger] open_groups(toks, k)[j] < k,
        forall|j: int|
            0 <= j < open_groups(toks, k).len() && open_groups(toks, k)[j] >= 0
                ==> toks[#[trigger] open_groups(toks, k)[j]] == Token::Open,
        forall|i: int, j: int|
            0 <= i < j < open_groups(toks, k).len() ==> #[trigger] open_groups(toks, k)[i]
                < #[trigger] open_groups(toks, k)[j],
    decreases k,
{
    if k > 0 {
        lemma_groups_bounds(toks, k - 1);
    }
}

/// What the scan keeps for each open group: whether anything read in it so
/// far, up to where the next group opens, repeats without limit.
spec fn frames_match(toks: Seq<Token>, k: int, frames: Seq<bool>) -> bool {
    let groups = open_groups(toks, k);
    &&& frames.len() == groups.len()
    &&& forall|j: int|
        0 <= j < frames.len() ==> #[trigger] frames[j] == repeats_between(
            toks,
            groups[j],
            if j + 1 < groups.len() {
                groups[j + 1]
            } else {
                k
            },
        )
}

proof fn lemma_between_grows(toks: Seq<Token>, from: int, k: int)
    requires
        from < k,
    ensures
        repeats_between(toks, from, k + 1) == (repeats_between(toks, from, k) || repeats(toks[k])),
{
    if repeats_between(toks, from, k + 1) {
        let m = choose|m: int| from < m < k + 1 && #[trigger] repeats(toks[m]);
        if m < k {
            assert(repeats_between(toks, from, k));
        }
    }
    if repeats_between(toks, from, k) {
        let m = choose|m: int| from < m < k && #[trigger] repeats(toks[m]);
        assert(repeats_between(toks, from, k + 1));
    }
    if repeats(toks[k]) {
        assert(repeats_between(toks, from, k + 1));
    }
}

proof fn lemma_between_joins(toks: Seq<Token>, from: int, mid: int, to: int)
    requires
        from < mid < to,
        !repeats(toks[mid]),
    ensures
        repeats_between(toks, from, to) == (repeats_between(toks, from, mid) || repeats_between(
            toks,
            mid,
            to,
        )),
{
    if repeats_between(toks, from, to) {
        let m = choose|m: int| from < m < to && #[trigger] repeats(toks[m]);
        if m < mid {
            assert(repeats_between(toks, from, mid));
        } else {
            assert(repeats_between(toks, mid, to));
        }
    }
}

/// The frames after an element that is neither bracket of a group.
proof fn lemma_frames_plain(toks: Seq<Token>, k: int, frames: Seq<bool>, after: Seq<bool>)
    requires
        0 <= k < toks.len(),
        frames_match(toks, k, frames),
        toks[k] == Token::Repeat || toks[k] == Token::Other,
        after.len() == frames.len(),
        forall|j: int| 0 <= j < frames.len() - 1 ==> #[trigger] after[j] == frames[j],
        frames.len() > 0 ==> after[frames.len() - 1] == (frames[frames.len() - 1] || repeats(
            toks[k],
        )),
    ensures
        frames_match(toks, k + 1, after),
{
    lemma_groups_bounds(toks, k);
    let groups = open_groups(toks, k);
    if groups.len() > 0 {
        lemma_between_grows(toks, groups.last(), k);
    }
    assert forall|j: int| 0 <= j < after.len() implies #[trigger] after[j] == repeats_between(
        toks,
        groups[j],
        if j + 1 < groups.len() {
            groups[j + 1]
        } else {
            k + 1
        },
    ) by {
        assert(frames[j] == frames[j]);
    }
}

/// The frames after an opening bracket.
proof fn lemma_frames_open(toks: Seq<Token>, k: int, frames: Seq<bool>)
    requires
        0 <= k < toks.len(),
        frames_match(toks, k, frames),
        toks[k] == Token::Open,
    ensures
        frames_match(toks, k + 1, frames.push(false)),
{
    lemma_groups_bounds(toks, k);
    let groups = open_groups(toks, k);
    let after = frames.push(false);
    assert(!repeats_between(toks, k, k + 1));
    assert forall|j: int| 0 <= j < after.len() implies #[trigger] after[j] == repeats_between(
        toks,
        groups.push(k)[j],
        if j + 1 < groups.len() + 1 {
            groups.push(k)[j + 1]
        } else {
            k + 1
        },
    ) by {
        if j < frames.len() {
            assert(frames[j] == frames[j]);
        }
    }
}

/// The frames after a closing bracket: what was in the group, and its own
/// repetition, count for the group around it.
proof fn lemma_frames_close(toks: Seq<Token>, k: int, frames: Seq<bool>, after: Seq<bool>)
    requires
        0 <= k < toks.len(),
        frames_match(toks, k, frames),
        toks[k] is Close,
        frames.len() > 0 ==> after.len() == frames.len() - 1,
        frames.len() == 0 ==> after.len() == 0,
        forall|j: int| 0 <= j < after.len() - 1 ==> #[trigger] after[j] == frames[j],
        after.len() > 0 ==> after[after.len() - 1] == (frames[after.len() - 1]
            || frames[after.len() as int] || repeats(toks[k])),
    ensures
        frames_match(toks, k + 1, after),
{
    lemma_groups_bounds(toks, k);
    let groups = open_groups(toks, k);
    if after.len() > 0 {
        let top = groups.last();
        let parent = groups[groups.len() - 2];
        assert(frames[after.len() - 1] == repeats_between(toks, parent, top));
        assert(frames[after.len() as int] == repeats_between(toks, top, k));
        assert(top > parent && parent >= -1);
        assert(toks[top] == Token::Open);
        lemma_between_joins(toks, parent, top, k);
        lemma_between_grows(toks, parent, k);
    }
    assert forall|j: int| 0 <= j < after.len() implies #[trigger] after[j] == repeats_between(
        toks,
        groups.drop_last()[j],
        if j + 1 < groups.drop_last().len() {
            groups.drop_last()[j + 1]
        } else {
            k + 1
        },
    ) by {
        assert(frames[j] == frames[j]);
    }
}

/// Rejects a pattern in which an unbounded quantifier is applied to a group
/// that contains an unbounded quantifier.
pub fn check_nested_repetition(pattern: &str) -> (r: Result<(), &'static str>)
    ensures
        nested_repetition(vstd::utf8::encode_utf8(pattern@)) ==> r == Err::<(), &'static str>(
            NESTED_REPETITION,
        ),
        !nested_repetition(vstd::utf8::encode_utf8(pattern@)) ==> r == Ok::<(), &'static str>(()),
{
    let bytes = pattern.as_bytes();
    let ghost b = bytes@;
    let ghost toks = tokens(b, 0);
    let ghost mut k: int = 0;
    let mut i: usize = 0;
    // One frame per open group: does anything in it repeat without limit?
    let mut frames: Vec<bool> = Vec::new();
    frames.push(false);
    proof {
        assert(toks.skip(0) =~= toks);
        assert(frames_match(toks, 0, frames@));
    }
    while i < bytes.len()
        invariant
            b == bytes@,
            b == vstd::utf8::encode_utf8(pattern@),
            toks == tokens(b, 0),
            i <= b.len(),
            0 <= k <= toks.len(),
            toks.skip(k) == tokens(b, i as int),
            frames_match(toks, k, frames@),
            forall|j: int| 0 <= j < k ==> !#[trigger] nested_at(toks, j),
        decreases b.len() - i,
    {
        let ghost tok = token_at(b, i as int).0;
        let ghost next = token_at(b, i as int).1;
        let ghost before = frames@;
        proof {
            lemma_token_advances(b, i as int);
            assert(toks.skip(k) == seq![tok] + tokens(b, next));
            assert(toks.skip(k)[0] == toks[k]);
            assert(toks.skip(k).drop_first() =~= toks.skip(k + 1));
            assert((seq![tok] + tokens(b, next)).drop_first() =~= tokens(b, next));
        }
        match bytes[i] {
            92 => {
                if bytes.len() - i >= 2 {
                    i = i + 2;
                } else {
                    i = bytes.len();
                }
            },
            91 => {
                i = skip_class(bytes, i);
            },
            40 => {
                frames.push(false);
                proof {
                    lemma_frames_open(toks, k, before);
                }
                i = i + 1;
            },
            41 => {
                let inner_unbounded: bool = match frames.pop() {
                    Some(inner) => inner,
                    None => false,
                };
                let (quant_unbounded, quant_len) = quantifier_at(bytes, i + 1);
                if quant_unbounded && inner_unbounded {
                    proof {
                        assert(before[before.len() - 1] == repeats_between(
                            toks,
                            open_groups(toks, k).last(),
                            k,
                        ));
                        assert(nested_at(toks, k));
                    }
                    return Err(NESTED_REPETITION);
                }
                proof {
                    if nested_at(toks, k) {
                        assert(before[before.len() - 1] == repeats_between(
                            toks,
                            open_groups(toks, k).last(),
                            k,
                        ));
                    }
                }
                // The group's content and its own repetition fold into the parent.
                let depth: usize = frames.len();
                if depth > 0 {
                    let parent: bool = frames[depth - 1];
                    frames[depth - 1] = parent || inner_unbounded || quant_unbounded;
                }
                proof {
                    lemma_frames_close(toks, k, before, frames@);
                }
                i = i + 1 + quant_len;
            },
            42 | 43 => {
                let depth: usize = frames.len();
                if depth > 0 {
                    frames[depth - 1] = true;
                }
                i = i + 1;
            },
            123 => {
                let (unbounded, len) = brace_quantifier(bytes, i);
                let depth: usize = frames.len();
                if unbounded && depth > 0 {
                    frames[depth - 1] = true;
                }
                i = i + len;
            },
            _ => {
                i = i + 1;
            },
        }
        proof {
            if tok == Token::Repeat || tok == Token::Other {
                lemma_frames_plain(toks, k, before, frames@);
            }
            k = k + 1;
        }
    }
    assert(toks.skip(k).len() == 0);
    Ok(())
}

// ---------------------------------------------------------------------------
// A pattern inside a group.

/// Whether the elements from `i` on take exactly the rest of a pattern: no
/// class is left open, and no backslash escapes what is not there.
pub open spec fn whole(b: Seq<u8>, i: int) -> bool
    decreases
            if i < b.len() {
                b.len() - i
            } else {
                0
            },
{
    if i < 0 || i >= b.len() {
        i == b.len()
    } else {
        proof {
            lemma_token_advances(b, i);
        }
        whole(b, token_at(b, i).1)
    }
}

/// Whether every group that closes was opened, and every one that opens is
/// closed.
pub open spec fn balanced(toks: Seq<Token>) -> bool {
    &&& forall|k: int|
        0 <= k < toks.len() && (#[trigger] toks[k]) is Close ==> open_groups(toks, k).len() > 1
    &&& open_groups(toks, toks.len() as int).len() == 1
}

/// Whether any element repeats something without limit.
pub open spec fn repeats_anywhere(toks: Seq<Token>) -> bool {
    exists|m: int| 0 <= m < toks.len() && #[trigger] repeats(toks[m])
}

/// A pattern in a group, with what stands behind it.
pub open spec fn grouped(p: Seq<u8>, behind: Seq<u8>) -> Seq<u8> {
    seq![40u8] + p + seq![41u8] + behind
}

proof fn lemma_digits_inside(p: Seq<u8>, behind: Seq<u8>, i: int)
    requires
        0 <= i <= p.len(),
    ensures
        digits_end(grouped(p, behind), i + 1) == digits_end(p, i) + 1,
    decreases p.len() - i,
{
    let w = grouped(p, behind);
    if i < p.len() {
        assert(w[i + 1] == p[i]);
        if is_digit(p[i]) {
            lemma_digits_inside(p, behind, i + 1);
        }
    } else {
        assert(w[i + 1] == 41);
    }
}

proof fn lemma_braces_inside(p: Seq<u8>, behind: Seq<u8>, i: int)
    requires
        0 <= i < p.len(),
    ensures
        braces_at(grouped(p, behind), i + 1) == (match braces_at(p, i) {
            Some((unbounded, next)) => Some((unbounded, next + 1)),
            None => None,
        }),
{
    let w = grouped(p, behind);
    lemma_digits_inside(p, behind, i + 1);
    lemma_digits_end(p, i + 1);
    let n = digits_end(p, i + 1);
    if n < p.len() {
        assert(w[n + 1] == p[n]);
        lemma_digits_inside(p, behind, n + 1);
        lemma_digits_end(p, n + 1);
        let m = digits_end(p, n + 1);
        if m < p.len() {
            assert(w[m + 1] == p[m]);
        } else {
            assert(w[m + 1] == 41);
        }
    } else {
        assert(w[n + 1] == 41);
    }
}

proof fn lemma_class_inside(p: Seq<u8>, behind: Seq<u8>, i: int)
    requires
        0 <= i,
        class_close(p, i) < p.len(),
    ensures
        class_close(grouped(p, behind), i + 1) == class_close(p, i) + 1,
    decreases p.len() + 1 - i,
{
    let w = grouped(p, behind);
    lemma_class_close(p, i);
    assert(w[i + 1] == p[i]);
    if p[i] == 92 {
        lemma_class_inside(p, behind, i + 2);
    } else if p[i] != 93 {
        lemma_class_inside(p, behind, i + 1);
    }
}

/// An element of a pattern that ends in it is the same element inside a group.
proof fn lemma_token_inside(p: Seq<u8>, behind: Seq<u8>, i: int)
    requires
        0 <= i < p.len(),
        token_at(p, i).1 <= p.len(),
    ensures
        token_at(grouped(p, behind), i + 1) == (token_at(p, i).0, token_at(p, i).1 + 1),
{
    let w = grouped(p, behind);
    assert(w[i + 1] == p[i]);
    if p[i] == 91 {
        let start = class_start(p, i);
        lemma_class_close(p, start);
        assert(i + 1 < p.len() ==> w[i + 2] == p[i + 1]);
        assert(i + 2 < p.len() ==> w[i + 3] == p[i + 2]);
        lemma_class_inside(p, behind, start);
    } else if p[i] == 41 {
        if i + 1 < p.len() {
            assert(w[i + 2] == p[i + 1]);
            lemma_braces_inside(p, behind, i + 1);
        } else {
            assert(w[i + 2] == 41);
        }
    } else if p[i] == 123 {
        lemma_braces_inside(p, behind, i);
    }
}

proof fn lemma_whole_bounds(p: Seq<u8>, i: int)
    requires
        0 <= i < p.len(),
        whole(p, i),
    ensures
        i < token_at(p, i).1 <= p.len(),
        whole(p, token_at(p, i).1),
{
    reveal_with_fuel(whole, 2);
    lemma_token_advances(p, i);
}

/// The elements of a whole pattern are the same inside a group.
proof fn lemma_tokens_inside(p: Seq<u8>, behind: Seq<u8>, i: int)
    requires
        0 <= i <= p.len(),
        whole(p, i),
    ensures
        tokens(grouped(p, behind), i + 1) == tokens(p, i) + tokens(
            grouped(p, behind),
            p.len() as int + 1,
        ),
    decreases p.len() - i,
{
    let w = grouped(p, behind);
    let rest = tokens(w, p.len() as int + 1);
    if i < p.len() {
        lemma_whole_bounds(p, i);
        lemma_token_inside(p, behind, i);
        let (t, next) = token_at(p, i);
        lemma_tokens_inside(p, behind, next);
        assert(seq![t] + (tokens(p, next) + rest) =~= (seq![t] + tokens(p, next)) + rest);
    } else {
        assert(tokens(p, i) + rest =~= rest);
    }
}

/// The elements of a group: it opens, it holds what it holds, it closes.
proof fn lemma_grouped_tokens(p: Seq<u8>, behind: Seq<u8>, unbounded: bool)
    requires
        whole(p, 0),
        quantifier_of(grouped(p, behind), p.len() as int + 2) == (unbounded, grouped(
            p,
            behind,
        ).len() as int),
    ensures
        tokens(grouped(p, behind), 0) == seq![Token::Open] + tokens(p, 0) + seq![
            Token::Close { unbounded },
        ],
{
    let w = grouped(p, behind);
    assert(w[0] == 40);
    assert(w[p.len() as int + 1] == 41);
    assert(token_at(w, 0) == (Token::Open, 1int));
    lemma_tokens_inside(p, behind, 0);
    assert(tokens(w, w.len() as int) =~= Seq::<Token>::empty());
    assert(tokens(w, p.len() as int + 1) =~= seq![Token::Close { unbounded }]);
    assert(tokens(w, 0) =~= seq![Token::Open] + tokens(p, 0) + seq![Token::Close { unbounded }]);
}

/// Inside a group, the groups that are open are the same, one place further,
/// and the group itself.
proof fn lemma_open_inside(toks: Seq<Token>, last: Token, k: int)
    requires
        balanced(toks),
        0 <= k <= toks.len(),
    ensures
        ({
            let all = seq![Token::Open] + toks + seq![last];
            let inner = open_groups(toks, k);
            let outer = open_groups(all, k + 1);
            &&& inner.len() >= 1
            &&& outer.len() == inner.len() + 1
            &&& forall|j: int| 0 <= j < inner.len() ==> outer[j + 1] == #[trigger] inner[j] + 1
        }),
    decreases k,
{
    let all = seq![Token::Open] + toks + seq![last];
    if k == 0 {
        assert(all[0] == Token::Open);
        assert(open_groups(all, 0) == seq![-1int]);
        assert(open_groups(all, 1) == seq![-1int].push(0));
    } else {
        lemma_open_inside(toks, last, k - 1);
        assert(all[k] == toks[k - 1]);
        let before = open_groups(toks, k - 1);
        let outer_before = open_groups(all, k);
        match toks[k - 1] {
            Token::Open => {},
            Token::Close { .. } => {
                assert(before.len() > 1);
            },
            _ => {},
        }
        let inner = open_groups(toks, k);
        let outer = open_groups(all, k + 1);
        assert forall|j: int| 0 <= j < inner.len() implies outer[j + 1] == #[trigger] inner[j]
            + 1 by {
            if j < before.len() {
                assert(outer_before[j + 1] == before[j] + 1);
            }
        }
    }
}

/// What an element closes is nested inside a group exactly where it is without
/// the group.
proof fn lemma_nested_inside(toks: Seq<Token>, last: Token, k: int)
    requires
        balanced(toks),
        0 <= k < toks.len(),
    ensures
        nested_at(seq![Token::Open] + toks + seq![last], k + 1) == nested_at(toks, k),
{
    let all = seq![Token::Open] + toks + seq![last];
    lemma_open_inside(toks, last, k);
    let inner = open_groups(toks, k);
    let outer = open_groups(all, k + 1);
    assert(all[k + 1] == toks[k]);
    assert(outer[inner.len() as int] == inner[inner.len() - 1] + 1);
    assert(outer.last() == inner.last() + 1);
    lemma_groups_bounds(toks, k);
    if repeats_between(toks, inner.last(), k) {
        let m = choose|m: int| inner.last() < m < k && #[trigger] repeats(toks[m]);
        assert(all[m + 1] == toks[m]);
        assert(repeats(all[m + 1]));
    }
    if repeats_between(all, outer.last(), k + 1) {
        let m = choose|m: int| outer.last() < m < k + 1 && #[trigger] repeats(all[m]);
        assert(all[m] == toks[m - 1]);
        assert(repeats(toks[m - 1]));
    }
}

proof fn lemma_grouped_verdict(p: Seq<u8>, behind: Seq<u8>, unbounded: bool)
    requires
        whole(p, 0),
        balanced(tokens(p, 0)),
        quantifier_of(grouped(p, behind), p.len() as int + 2) == (unbounded, grouped(
            p,
            behind,
        ).len() as int),
    ensures
        nested_repetition(grouped(p, behind)) == (nested_repetition(p) || (unbounded
            && repeats_anywhere(tokens(p, 0)))),
{
    let toks = tokens(p, 0);
    let last = Token::Close { unbounded };
    let all = seq![Token::Open] + toks + seq![last];
    lemma_grouped_tokens(p, behind, unbounded);
    let n = toks.len() as int;
    lemma_open_inside(toks, last, n);
    let outer = open_groups(all, n + 1);
    let inner = open_groups(toks, n);
    lemma_open_base(toks, n);
    assert(outer[1] == inner[0] + 1);
    assert(outer.last() == 0);
    assert(all[n + 1] == last);
    if nested_repetition(p) {
        let k = choose|k: int| 0 <= k < toks.len() && #[trigger] nested_at(toks, k);
        lemma_nested_inside(toks, last, k);
        assert(nested_at(all, k + 1));
    }
    if unbounded && repeats_anywhere(toks) {
        let m = choose|m: int| 0 <= m < toks.len() && #[trigger] repeats(toks[m]);
        assert(all[m + 1] == toks[m]);
        assert(repeats(all[m + 1]));
        assert(nested_at(all, n + 1));
    }
    if nested_repetition(grouped(p, behind)) {
        let k = choose|k: int| 0 <= k < all.len() && #[trigger] nested_at(all, k);
        if k == 0 {
            assert(all[0] == Token::Open);
        } else if k <= n {
            lemma_nested_inside(toks, last, k - 1);
            assert(nested_at(toks, k - 1));
        } else {
            let m = choose|m: int| outer.last() < m < n + 1 && #[trigger] repeats(all[m]);
            assert(all[m] == toks[m - 1]);
            assert(repeats(toks[m - 1]));
        }
    }
}

/// The outermost group is the pattern itself.
proof fn lemma_open_base(toks: Seq<Token>, k: int)
    requires
        balanced(toks),
        0 <= k <= toks.len(),
    ensures
        open_groups(toks, k).len() >= 1,
        open_groups(toks, k)[0] == -1,
    decreases k,
{
    if k > 0 {
        lemma_open_base(toks, k - 1);
        if toks[k - 1] is Close {
            assert(open_groups(toks, k - 1).len() > 1);
        }
    }
}

/// A group changes nothing: a whole pattern with balanced groups is rejected in
/// a group exactly where it is rejected alone.
pub proof fn law_group_changes_nothing(p: Seq<u8>)
    requires
        whole(p, 0),
        balanced(tokens(p, 0)),
    ensures
        nested_repetition(seq![40u8] + p + seq![41u8]) == nested_repetition(p),
{
    let behind = Seq::<u8>::empty();
    assert(grouped(p, behind) =~= seq![40u8] + p + seq![41u8]);
    lemma_grouped_verdict(p, behind, false);
}

/// A group that repeats without limit, `(..)+`, is rejected exactly where its
/// content is, or where anything in it, at any depth, repeats without limit.
pub proof fn law_repeated_group_holds_no_repetition(p: Seq<u8>)
    requires
        whole(p, 0),
        balanced(tokens(p, 0)),
    ensures
        nested_repetition(seq![40u8] + p + seq![41u8, 43u8]) == (nested_repetition(p)
            || repeats_anywhere(tokens(p, 0))),
{
    let behind = seq![43u8];
    assert(grouped(p, behind) =~= seq![40u8] + p + seq![41u8, 43u8]);
    lemma_grouped_verdict(p, behind, true);
}

/// A bounded repetition changes nothing: `(..){3}` is rejected exactly where
/// its content is.
pub proof fn law_bounded_group_changes_nothing(p: Seq<u8>)
    requires
        whole(p, 0),
        balanced(tokens(p, 0)),
    ensures
        nested_repetition(seq![40u8] + p + seq![41u8, 123u8, 51u8, 125u8]) == nested_repetition(p),
{
    let behind = seq![123u8, 51u8, 125u8];
    let w = grouped(p, behind);
    assert(w =~= seq![40u8] + p + seq![41u8, 123u8, 51u8, 125u8]);
    let at = p.len() as int + 2;
    assert(w[at] == 123 && w[at + 1] == 51 && w[at + 2] == 125);
    assert(digits_end(w, at + 2) == at + 2);
    assert(digits_end(w, at + 1) == at + 2);
    lemma_grouped_verdict(p, behind, false);
}

// ---------------------------------------------------------------------------
// What the elements of a pattern are, and which of them nest.

proof fn lemma_digits_are(b: Seq<u8>, i: int, stop: int)
    requires
        0 <= i <= stop <= b.len(),
        forall|j: int| i <= j < stop ==> 48 <= #[trigger] b[j] <= 57,
        stop == b.len() || !(48 <= b[stop] <= 57),
    ensures
        digits_end(b, i) == stop,
    decreases stop - i,
{
    if i < stop {
        assert(48 <= b[i] <= 57);
        lemma_digits_are(b, i + 1, stop);
    }
}

/// A backslash and what it escapes are one plain element. A parenthesis opens
/// a group. `*` and `+` repeat without limit. Any byte that means nothing to
/// the scan stands for itself.
pub proof fn law_single_elements(b: Seq<u8>, i: int)
    requires
        0 <= i < b.len(),
    ensures
        b[i] == 92 ==> tokens(b, i) == seq![Token::Other] + tokens(b, i + 2),
        b[i] == 40 ==> tokens(b, i) == seq![Token::Open] + tokens(b, i + 1),
        b[i] == 42 || b[i] == 43 ==> tokens(b, i) == seq![Token::Repeat] + tokens(b, i + 1),
        !(b[i] == 92 || b[i] == 91 || b[i] == 40 || b[i] == 41 || b[i] == 42 || b[i] == 43 || b[i]
            == 123) ==> tokens(b, i) == seq![Token::Other] + tokens(b, i + 1),
        tokens(b, b.len() as int).len() == 0,
{
}

/// A group that closes repeats without limit where `*` or `+` follows, and not
/// where `?` or no quantifier follows.
pub proof fn law_groups_close(b: Seq<u8>, i: int)
    requires
        0 <= i < b.len(),
        b[i] == 41,
    ensures
        i + 1 < b.len() && (b[i + 1] == 42 || b[i + 1] == 43) ==> tokens(b, i) == seq![
            Token::Close { unbounded: true },
        ] + tokens(b, i + 2),
        i + 1 < b.len() && b[i + 1] == 63 ==> tokens(b, i) == seq![
            Token::Close { unbounded: false },
        ] + tokens(b, i + 2),
        i + 1 == b.len() || !(b[i + 1] == 42 || b[i + 1] == 43 || b[i + 1] == 63 || b[i + 1] == 123)
            ==> tokens(b, i) == seq![Token::Close { unbounded: false }] + tokens(b, i + 1),
{
}

/// Braces repeat without limit only as `{n,}`. `{n}` and `{n,m}` are bounded,
/// and a brace without a digit behind it is a literal. On a group they decide
/// whether the group repeats without limit.
pub proof fn law_braces(b: Seq<u8>, i: int, n: int, m: int)
    requires
        0 <= i,
        i + 1 < n <= m < b.len(),
        b[i] == 123,
        forall|j: int| i < j < n ==> 48 <= #[trigger] b[j] <= 57,
        b[m] == 125,
        n < m ==> b[n] == 44,
        forall|j: int| n < j < m ==> 48 <= #[trigger] b[j] <= 57,
    ensures
        m == n ==> tokens(b, i) == seq![Token::Other] + tokens(b, m + 1),
        m == n + 1 ==> tokens(b, i) == seq![Token::Repeat] + tokens(b, m + 1),
        m > n + 1 ==> tokens(b, i) == seq![Token::Other] + tokens(b, m + 1),
        i > 0 && b[i - 1] == 41 ==> tokens(b, i - 1) == seq![
            Token::Close { unbounded: m == n + 1 },
        ] + tokens(b, m + 1),
{
    lemma_digits_are(b, i + 1, n);
    if n < m {
        lemma_digits_are(b, n + 1, m);
    }
    assert(braces_at(b, i) == Some((m == n + 1, m + 1)));
}

/// A brace that no digit follows is a literal.
pub proof fn law_other_braces_are_literals(b: Seq<u8>, i: int)
    requires
        0 <= i < b.len(),
        b[i] == 123,
        i + 1 == b.len() || !(48 <= b[i + 1] <= 57),
    ensures
        tokens(b, i) == seq![Token::Other] + tokens(b, i + 1),
{
    lemma_digits_are(b, i + 1, i + 1);
}

proof fn lemma_class_is(b: Seq<u8>, i: int, stop: int)
    requires
        0 <= i <= stop < b.len(),
        b[stop] == 93,
        forall|j: int| i <= j < stop ==> #[trigger] b[j] != 93 && b[j] != 92,
    ensures
        class_close(b, i) == stop,
    decreases stop - i,
{
    if i < stop {
        assert(b[i] != 93 && b[i] != 92);
        lemma_class_is(b, i + 1, stop);
    }
}

/// A character class is one plain element, whatever stands in it: parentheses
/// and quantifiers mean nothing there.
pub proof fn law_classes_are_plain(b: Seq<u8>, i: int, stop: int)
    requires
        0 <= i,
        i + 1 < stop < b.len(),
        b[i] == 91,
        b[stop] == 93,
        forall|j: int| i < j < stop ==> #[trigger] b[j] != 93 && b[j] != 92,
        b[i + 1] != 94 || i + 2 < stop,
    ensures
        tokens(b, i) == seq![Token::Other] + tokens(b, stop + 1),
{
    let start = class_start(b, i);
    assert(b[i + 1] != 93);
    if b[i + 1] == 94 {
        assert(b[i + 2] != 93);
    }
    lemma_class_is(b, start, stop);
}

/// A bracket that is the first member of a class does not close it, with or
/// without a caret in front of it.
pub proof fn law_a_first_bracket_is_a_member(b: Seq<u8>, i: int, first: int, stop: int)
    requires
        0 <= i,
        first == i + 1 || (first == i + 2 && b[i + 1] == 94),
        first < stop < b.len(),
        b[i] == 91,
        b[first] == 93,
        b[stop] == 93,
        forall|j: int| first < j < stop ==> #[trigger] b[j] != 93 && b[j] != 92,
    ensures
        tokens(b, i) == seq![Token::Other] + tokens(b, stop + 1),
{
    lemma_class_is(b, first + 1, stop);
}

/// An escaped member of a class does not close it.
pub proof fn law_escaped_members_stay_inside(b: Seq<u8>, i: int, at: int, stop: int)
    requires
        0 <= i,
        i + 1 < at,
        at + 1 < stop < b.len(),
        b[i] == 91,
        b[i + 1] != 94,
        b[at] == 92,
        b[stop] == 93,
        forall|j: int| i < j < at ==> #[trigger] b[j] != 93 && b[j] != 92,
        forall|j: int| at + 1 < j < stop ==> #[trigger] b[j] != 93 && b[j] != 92,
    ensures
        tokens(b, i) == seq![Token::Other] + tokens(b, stop + 1),
{
    assert(b[i + 1] != 93);
    lemma_class_is(b, at + 2, stop);
    lemma_class_up_to(b, i + 1, at);
}

proof fn lemma_class_up_to(b: Seq<u8>, i: int, at: int)
    requires
        0 <= i <= at < b.len(),
        b[at] == 92,
        forall|j: int| i <= j < at ==> #[trigger] b[j] != 93 && b[j] != 92,
    ensures
        class_close(b, i) == class_close(b, at + 2),
    decreases at - i,
{
    if i < at {
        assert(b[i] != 93 && b[i] != 92);
        lemma_class_up_to(b, i + 1, at);
    }
}

/// Among plain elements behind one that opens a group, that group is the one
/// that is open.
proof fn lemma_flat_group(toks: Seq<Token>, from: int, k: int)
    requires
        0 <= from < k <= toks.len(),
        toks[from] is Open,
        forall|j: int| from < j < k ==> !(#[trigger] toks[j] is Open) && !(toks[j] is Close),
    ensures
        open_groups(toks, k).len() > 0,
        open_groups(toks, k).last() == from,
    decreases k,
{
    if k == from + 1 {
        assert(open_groups(toks, k) == open_groups(toks, from).push(from));
    } else {
        lemma_flat_group(toks, from, k - 1);
        assert(!(toks[k - 1] is Open) && !(toks[k - 1] is Close));
    }
}

/// Nested repetition is found wherever it stands: whatever comes before and
/// behind, a group that holds an unbounded quantifier and repeats without
/// limit itself is rejected.
pub proof fn law_nesting_is_found_anywhere(b: Seq<u8>, from: int, at: int, k: int)
    requires
        0 <= from < at < k < tokens(b, 0).len(),
        tokens(b, 0)[from] is Open,
        tokens(b, 0)[at] is Repeat,
        tokens(b, 0)[k] == (Token::Close { unbounded: true }),
        forall|j: int|
            from < j < k ==> !(#[trigger] tokens(b, 0)[j] is Open) && !(tokens(b, 0)[j] is Close),
    ensures
        nested_repetition(b),
{
    let toks = tokens(b, 0);
    lemma_flat_group(toks, from, k);
    assert(repeats(toks[at]));
    assert(nested_at(toks, k));
}

/// It is found at any depth: a group that repeats without limit is rejected
/// too where a group directly in it does.
pub proof fn law_nesting_is_found_through_groups(
    b: Seq<u8>,
    outer: int,
    inner: int,
    close: int,
    k: int,
)
    requires
        0 <= outer < inner < close < k < tokens(b, 0).len(),
        tokens(b, 0)[outer] is Open,
        tokens(b, 0)[inner] is Open,
        tokens(b, 0)[close] == (Token::Close { unbounded: true }),
        tokens(b, 0)[k] == (Token::Close { unbounded: true }),
        forall|j: int|
            outer < j < k && j != inner && j != close ==> !(#[trigger] tokens(b, 0)[j] is Open)
                && !(tokens(b, 0)[j] is Close),
    ensures
        nested_repetition(b),
{
    let toks = tokens(b, 0);
    lemma_flat_group(toks, outer, inner);
    lemma_flat_group(toks, inner, close);
    lemma_inner_group(toks, inner, close);
    assert(open_groups(toks, inner).push(inner).drop_last() =~= open_groups(toks, inner));
    lemma_flat_after(toks, close, k, open_groups(toks, inner));
    assert(repeats(toks[close]));
    assert(nested_at(toks, k));
}

/// Behind a flat group the same groups are open as before it.
proof fn lemma_inner_group(toks: Seq<Token>, inner: int, k: int)
    requires
        0 <= inner < k <= toks.len(),
        toks[inner] is Open,
        forall|j: int| inner < j < k ==> !(#[trigger] toks[j] is Open) && !(toks[j] is Close),
    ensures
        open_groups(toks, k) == open_groups(toks, inner).push(inner),
    decreases k,
{
    if k > inner + 1 {
        lemma_inner_group(toks, inner, k - 1);
        assert(!(toks[k - 1] is Open) && !(toks[k - 1] is Close));
    }
}

proof fn lemma_flat_after(toks: Seq<Token>, close: int, k: int, groups: Seq<int>)
    requires
        0 <= close < k <= toks.len(),
        toks[close] is Close,
        open_groups(toks, close).len() > 0,
        open_groups(toks, close).drop_last() == groups,
        forall|j: int| close < j < k ==> !(#[trigger] toks[j] is Open) && !(toks[j] is Close),
    ensures
        open_groups(toks, k) == groups,
    decreases k,
{
    if k > close + 1 {
        lemma_flat_after(toks, close, k - 1, groups);
        assert(!(toks[k - 1] is Open) && !(toks[k - 1] is Close));
    }
}

/// Nothing else is rejected: where no group repeats without limit, or nothing
/// repeats before one that does, a pattern is accepted.
pub proof fn law_only_nesting_is_rejected(b: Seq<u8>)
    requires
        forall|k: int, m: int|
            0 <= m < k < tokens(b, 0).len() && #[trigger] tokens(b, 0)[k] == (Token::Close {
                unbounded: true,
            }) ==> !(#[trigger] tokens(b, 0)[m] is Repeat) && tokens(b, 0)[m] != (Token::Close {
                unbounded: true,
            }),
    ensures
        !nested_repetition(b),
{
    let toks = tokens(b, 0);
    if nested_repetition(b) {
        let k = choose|k: int| 0 <= k < toks.len() && #[trigger] nested_at(toks, k);
        let from = open_groups(toks, k).last();
        lemma_groups_bounds(toks, k);
        let m = choose|m: int| from < m < k && #[trigger] repeats(toks[m]);
        assert(toks[k] == (Token::Close { unbounded: true }));
        assert(!(toks[m] is Repeat));
    }
}

/// Groups next to each other do not nest: a repetition before a flat group
/// opens does not count against it.
pub proof fn law_neighbours_do_not_nest(b: Seq<u8>, from: int, k: int)
    requires
        0 <= from < k < tokens(b, 0).len(),
        tokens(b, 0)[from] is Open,
        tokens(b, 0)[k] is Close,
        forall|j: int| from < j < k ==> #[trigger] tokens(b, 0)[j] is Other,
        forall|j: int|
            0 <= j < tokens(b, 0).len() && j != k ==> #[trigger] tokens(b, 0)[j] != (Token::Close {
                unbounded: true,
            }),
    ensures
        !nested_repetition(b),
{
    let toks = tokens(b, 0);
    lemma_flat_group(toks, from, k);
    if nested_repetition(b) {
        let n = choose|n: int| 0 <= n < toks.len() && #[trigger] nested_at(toks, n);
        assert(n == k);
        let m = choose|m: int| from < m < k && #[trigger] repeats(toks[m]);
        assert(toks[m] is Other);
    }
}

} // verus!
