//! Deterministic sampling: every agent in a fleet reaches the same decision
//! for the same trace id, with no coordination.
//!
//! Function, seed and modulus are frozen. A change to any of them needs a new
//! [`ALGO_VERSION`].

use crate::hash;
use vstd::prelude::*;
use xxhash_rust::xxh64::{xxh64, Xxh64};

verus! {

/// Frozen algorithm version; travels with policy and billing statements.
pub const ALGO_VERSION: u32 = 1;

/// Frozen seed.
pub const SEED: u64 = 0;

/// The bucket of a hash, 0 to 99.
pub open spec fn bucket_of(h: u64) -> int {
    (h % 100) as int
}

/// Whether a hash falls below a percentage.
pub open spec fn kept_at(h: u64, target_pct: u8) -> bool {
    bucket_of(h) < target_pct
}

/// The key of a record without a trace id: service name, a zero byte, body.
pub open spec fn untraced_key(service_name: Seq<u8>, body: Seq<u8>) -> Seq<u8> {
    service_name + seq![0u8] + body
}

/// The decision rule: keep iff `xxHash64(trace_id, 0) % 100 < target_pct`.
/// `target_pct` is percent kept; 100 disables sampling, 0 drops everything.
pub fn keep(trace_id: &[u8; 16], target_pct: u8) -> (r: bool)
    ensures
        r == kept_at(hash::xxh64_of(trace_id@, SEED), target_pct),
{
    xxh64(trace_id, SEED) % 100 < target_pct as u64
}

/// The bucket (0 to 99) of a trace id.
pub fn bucket(trace_id: &[u8; 16]) -> (r: u8)
    ensures
        r == bucket_of(hash::xxh64_of(trace_id@, SEED)),
{
    (xxh64(trace_id, SEED) % 100) as u8
}

/// Fallback key for records without a trace id: the hash of service name, a
/// zero byte and body. Streamed, with no buffer to put them together.
pub fn fallback_key(service_name: &[u8], body: &[u8]) -> (r: u64)
    ensures
        r == hash::xxh64_streamed(untraced_key(service_name@, body@), SEED),
        untraced_key(service_name@, body@).len() <= u64::MAX ==> r == hash::xxh64_of(
            untraced_key(service_name@, body@),
            SEED,
        ),
{
    let mut h = Xxh64::new(SEED);
    h.update(service_name);
    let zero: [u8; 1] = [0u8];
    h.update(&zero);
    h.update(body);
    proof {
        assert(zero@ =~= seq![0u8]);
        assert(hash::fed(h) =~= untraced_key(service_name@, body@));
    }
    h.digest()
}

/// Decision for records without a trace id.
pub fn keep_untraced(service_name: &[u8], body: &[u8], target_pct: u8) -> (r: bool)
    ensures
        r == kept_at(
            hash::xxh64_streamed(untraced_key(service_name@, body@), SEED),
            target_pct,
        ),
{
    fallback_key(service_name, body) % 100 < target_pct as u64
}

/// A target of 0 keeps nothing, one of 100 keeps everything.
pub proof fn law_target_extremes(h: u64)
    ensures
        !kept_at(h, 0),
        kept_at(h, 100),
{
}

/// What is kept at one target is kept at every higher target.
pub proof fn law_kept_is_monotone(h: u64, lower: u8, higher: u8)
    requires
        lower <= higher,
        kept_at(h, lower),
    ensures
        kept_at(h, higher),
{
}

/// The zero byte separates: two services and bodies make the same key only
/// where they are the same, as long as the service names hold no zero byte.
pub proof fn law_untraced_key_separates(s1: Seq<u8>, b1: Seq<u8>, s2: Seq<u8>, b2: Seq<u8>)
    requires
        !s1.contains(0),
        !s2.contains(0),
        untraced_key(s1, b1) == untraced_key(s2, b2),
    ensures
        s1 == s2,
        b1 == b2,
{
    let k1 = untraced_key(s1, b1);
    let k2 = untraced_key(s2, b2);
    assert(k1[s1.len() as int] == 0);
    assert(k2[s2.len() as int] == 0);
    if s1.len() < s2.len() {
        assert(k2[s1.len() as int] == s2[s1.len() as int]);
        assert(s2.contains(s2[s1.len() as int]));
    }
    if s2.len() < s1.len() {
        assert(k1[s2.len() as int] == s1[s2.len() as int]);
        assert(s1.contains(s1[s2.len() as int]));
    }
    assert(s1 =~= k1.take(s1.len() as int));
    assert(s2 =~= k2.take(s2.len() as int));
    assert(b1 =~= k1.skip(s1.len() as int + 1));
    assert(b2 =~= k2.skip(s2.len() as int + 1));
}

} // verus!
