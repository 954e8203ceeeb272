//! Minimal `*`-wildcard patterns over bytes: `*` matches any run of bytes,
//! the empty run too; every other byte stands for itself.

use vstd::prelude::*;

verus! {

/// The wildcard byte, `*`.
pub const STAR: u8 = 42;

/// Whether `pattern` matches the whole of `key`: a star takes nothing or one
/// more byte, a literal takes itself.
pub open spec fn glob(pattern: Seq<u8>, key: Seq<u8>) -> bool
    decreases pattern.len() + key.len(),
{
    if pattern.len() == 0 {
        key.len() == 0
    } else if pattern[0] == STAR {
        glob(pattern.drop_first(), key) || (key.len() > 0 && glob(pattern, key.drop_first()))
    } else {
        key.len() > 0 && key[0] == pattern[0] && glob(pattern.drop_first(), key.drop_first())
    }
}

/// Whether the pattern from `p` on matches the key from `k` on.
spec fn glob_from(pattern: Seq<u8>, key: Seq<u8>, p: int, k: int) -> bool {
    glob(pattern.skip(p), key.skip(k))
}

/// Whether the pattern from `p` on matches the key from some offset on that is
/// not before `k`.
spec fn glob_beyond(pattern: Seq<u8>, key: Seq<u8>, p: int, k: int) -> bool {
    exists|j: int| k <= j <= key.len() && #[trigger] glob_from(pattern, key, p, j)
}

/// A pattern that starts with a star matches from any later offset.
proof fn lemma_star(pattern: Seq<u8>, key: Seq<u8>, p: int, k: int)
    requires
        0 <= p < pattern.len(),
        0 <= k <= key.len(),
        pattern[p] == STAR,
    ensures
        glob_from(pattern, key, p, k) == glob_beyond(pattern, key, p + 1, k),
    decreases key.len() - k,
{
    let rest = pattern.skip(p);
    assert(rest.drop_first() =~= pattern.skip(p + 1));
    if k < key.len() {
        assert(key.skip(k).drop_first() =~= key.skip(k + 1));
        lemma_star(pattern, key, p, k + 1);
        if glob_beyond(pattern, key, p + 1, k) {
            let j = choose|j: int|
                k <= j <= key.len() && #[trigger] glob_from(pattern, key, p + 1, j);
            if j > k {
                assert(glob_beyond(pattern, key, p + 1, k + 1));
            }
        }
    }
    if glob_from(pattern, key, p + 1, k) {
        assert(glob_beyond(pattern, key, p + 1, k));
    }
}

/// `*` followed by a pattern matches exactly the keys that end in something
/// the pattern matches.
pub proof fn law_star_takes_any_run(pattern: Seq<u8>, key: Seq<u8>)
    ensures
        glob(seq![42u8] + pattern, key) <==> exists|n: int|
            0 <= n <= key.len() && #[trigger] glob(pattern, key.skip(n)),
{
    let whole = seq![STAR] + pattern;
    assert(whole.skip(0) =~= whole);
    assert(whole.skip(1) =~= pattern);
    assert(key.skip(0) =~= key);
    lemma_star(whole, key, 0, 0);
    if glob_beyond(whole, key, 1, 0) {
        let j = choose|j: int| 0 <= j <= key.len() && #[trigger] glob_from(whole, key, 1, j);
        assert(glob(pattern, key.skip(j)));
    }
    if exists|n: int| 0 <= n <= key.len() && #[trigger] glob(pattern, key.skip(n)) {
        let n = choose|n: int| 0 <= n <= key.len() && #[trigger] glob(pattern, key.skip(n));
        assert(glob_from(whole, key, 1, n));
    }
}

/// The empty pattern matches the empty key only. A byte other than `*` stands
/// for itself: it matches exactly the keys that start with it and go on with
/// something that the rest matches.
pub proof fn law_literals_stand_for_themselves(c: u8, pattern: Seq<u8>, key: Seq<u8>)
    requires
        c != 42,
    ensures
        glob(Seq::empty(), key) <==> key.len() == 0,
        glob(seq![c] + pattern, key) <==> key.len() > 0 && key[0] == c && glob(
            pattern,
            key.skip(1),
        ),
{
    let whole = seq![c] + pattern;
    assert(whole.drop_first() =~= pattern);
    if key.len() > 0 {
        assert(key.drop_first() =~= key.skip(1));
    }
}

/// A pattern without `*` matches itself and nothing else.
pub proof fn law_plain_pattern_is_equality(pattern: Seq<u8>, key: Seq<u8>)
    requires
        forall|i: int| 0 <= i < pattern.len() ==> #[trigger] pattern[i] != 42,
    ensures
        glob(pattern, key) <==> pattern == key,
    decreases pattern.len(),
{
    if pattern.len() > 0 {
        assert(pattern[0] != 42);
        assert forall|i: int| 0 <= i < pattern.drop_first().len() implies #[trigger] pattern.drop_first()[i]
            != 42 by {
            assert(pattern[i + 1] != 42);
        }
        if key.len() > 0 {
            law_plain_pattern_is_equality(pattern.drop_first(), key.drop_first());
            assert(pattern =~= seq![pattern[0]] + pattern.drop_first());
            assert(key =~= seq![key[0]] + key.drop_first());
        }
    } else {
        if key.len() == 0 {
            assert(pattern =~= key);
        }
    }
}

/// A literal byte matches itself, and then the rest must match.
proof fn lemma_literal(pattern: Seq<u8>, key: Seq<u8>, p: int, k: int)
    requires
        0 <= p < pattern.len(),
        0 <= k <= key.len(),
        pattern[p] != STAR,
    ensures
        glob_from(pattern, key, p, k) == (k < key.len() && key[k] == pattern[p] && glob_from(
            pattern,
            key,
            p + 1,
            k + 1,
        )),
{
    assert(pattern.skip(p).drop_first() =~= pattern.skip(p + 1));
    if k < key.len() {
        assert(key.skip(k).drop_first() =~= key.skip(k + 1));
    }
}

/// A literal stretch of a match moves pattern and key on together.
proof fn lemma_literals(pattern: Seq<u8>, key: Seq<u8>, p: int, k: int, n: int)
    requires
        0 <= p,
        0 <= n,
        p + n <= pattern.len(),
        0 <= k <= key.len(),
        forall|i: int| p <= i < p + n ==> #[trigger] pattern[i] != STAR,
        glob_from(pattern, key, p, k),
    ensures
        k + n <= key.len(),
        glob_from(pattern, key, p + n, k + n),
    decreases n,
{
    if n > 0 {
        lemma_literal(pattern, key, p, k);
        lemma_literals(pattern, key, p + 1, k + 1, n - 1);
    }
}

/// Two-pointer wildcard match: one pass over the key, with the last star
/// taking one more byte whenever a literal fails.
pub fn matches(pattern: &[u8], key: &[u8]) -> (r: bool)
    ensures
        r == glob(pattern@, key@),
{
    let mut p: usize = 0;
    let mut k: usize = 0;
    let mut star: Option<(usize, usize)> = None;
    proof {
        assert(pattern@.skip(0) =~= pattern@);
        assert(key@.skip(0) =~= key@);
    }
    while k < key.len()
        invariant
            p <= pattern@.len(),
            k <= key@.len(),
            match star {
                None => glob(pattern@, key@) == glob_from(pattern@, key@, p as int, k as int),
                Some((sp, sk)) => {
                    &&& sp <= p
                    &&& sk <= k
                    &&& p - sp == k - sk
                    &&& forall|i: int| sp <= i < p ==> #[trigger] pattern@[i] != STAR
                    &&& glob(pattern@, key@) == (glob_from(pattern@, key@, p as int, k as int)
                        || glob_beyond(pattern@, key@, sp as int, sk + 1))
                },
            },
        decreases
                key@.len() + 1 - (match star {
                    None => 0int,
                    Some((sp, sk)) => sk + 1,
                }),
                pattern@.len() - p,
                key@.len() - k,
    {
        if p < pattern.len() && pattern[p] == STAR {
            proof {
                lemma_star(pattern@, key@, p as int, k as int);
                assert(glob_beyond(pattern@, key@, p + 1, k as int) == (glob_from(
                    pattern@,
                    key@,
                    p + 1,
                    k as int,
                ) || glob_beyond(pattern@, key@, p + 1, k + 1)));
                if let Some((sp, sk)) = star {
                    if glob_beyond(pattern@, key@, sp as int, sk + 1) {
                        let j = choose|j: int|
                            sk + 1 <= j <= key@.len() && #[trigger] glob_from(
                                pattern@,
                                key@,
                                sp as int,
                                j,
                            );
                        lemma_literals(pattern@, key@, sp as int, j, p - sp);
                        lemma_star(pattern@, key@, p as int, j + (p - sp));
                        let m = choose|m: int|
                            j + (p - sp) <= m <= key@.len() && #[trigger] glob_from(
                                pattern@,
                                key@,
                                p + 1,
                                m,
                            );
                        assert(glob_from(pattern@, key@, p + 1, m));
                    }
                }
            }
            star = Some((p + 1, k));
            p = p + 1;
        } else if p < pattern.len() && pattern[p] == key[k] {
            proof {
                lemma_literal(pattern@, key@, p as int, k as int);
            }
            p = p + 1;
            k = k + 1;
        } else {
            proof {
                if p < pattern@.len() {
                    lemma_literal(pattern@, key@, p as int, k as int);
                } else {
                    assert(pattern@.skip(p as int).len() == 0);
                }
            }
            match star {
                Some((sp, sk)) => {
                    proof {
                        assert(glob_beyond(pattern@, key@, sp as int, sk + 1) == (glob_from(
                            pattern@,
                            key@,
                            sp as int,
                            sk + 1,
                        ) || glob_beyond(pattern@, key@, sp as int, sk + 2)));
                    }
                    p = sp;
                    k = sk + 1;
                    star = Some((sp, sk + 1));
                },
                None => {
                    return false;
                },
            }
        }
    }
    proof {
        if let Some((sp, sk)) = star {
            if glob_beyond(pattern@, key@, sp as int, sk + 1) {
                let j = choose|j: int|
                    sk + 1 <= j <= key@.len() && #[trigger] glob_from(pattern@, key@, sp as int, j);
                lemma_literals(pattern@, key@, sp as int, j, p - sp);
                assert(false);
            }
        }
    }
    while p < pattern.len() && pattern[p] == STAR
        invariant
            p <= pattern@.len(),
            k == key@.len(),
            glob(pattern@, key@) == glob_from(pattern@, key@, p as int, k as int),
        decreases pattern@.len() - p,
    {
        proof {
            lemma_star(pattern@, key@, p as int, k as int);
            assert(glob_beyond(pattern@, key@, p + 1, k as int) == glob_from(
                pattern@,
                key@,
                p + 1,
                k as int,
            ));
        }
        p = p + 1;
    }
    proof {
        if p < pattern@.len() {
            lemma_literal(pattern@, key@, p as int, k as int);
        } else {
            assert(pattern@.skip(p as int).len() == 0);
            assert(key@.skip(k as int).len() == 0);
        }
    }
    p == pattern.len()
}

} // verus!
