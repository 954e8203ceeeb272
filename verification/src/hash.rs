//! xxHash64, from the `xxhash-rust` crate.

use vstd::prelude::*;
use xxhash_rust::xxh64::{xxh64, Xxh64};

verus! {

#[verifier::external_type_specification]
#[verifier::external_body]
pub struct ExXxh64(Xxh64);

/// The xxHash64 of a byte string under a seed.
pub uninterp spec fn xxh64_of(input: Seq<u8>, seed: u64) -> u64;

/// What a streaming hasher yields for everything it was fed, in one or in many
/// pieces.
pub uninterp spec fn xxh64_streamed(input: Seq<u8>, seed: u64) -> u64;

/// Everything a streaming hasher was fed so far.
pub uninterp spec fn fed(h: Xxh64) -> Seq<u8>;

/// The seed of a streaming hasher.
pub uninterp spec fn seed_of(h: Xxh64) -> u64;

/// `xxh64`: the hash of a slice.
pub assume_specification[ xxh64 ](input: &[u8], seed: u64) -> (r: u64)
    ensures
        r == xxh64_of(input@, seed),
;

/// `Xxh64::new`: a hasher that was fed nothing.
pub assume_specification[ Xxh64::new ](seed: u64) -> (h: Xxh64)
    ensures
        fed(h) == Seq::<u8>::empty(),
        seed_of(h) == seed,
;

/// `Xxh64::update`: feeds one more piece.
pub assume_specification[ Xxh64::update ](h: &mut Xxh64, input: &[u8])
    ensures
        fed(*final(h)) == fed(*old(h)) + input@,
        seed_of(*final(h)) == seed_of(*old(h)),
;

/// `Xxh64::digest`: the hash of what was fed. The hasher counts its input in
/// 64 bits; up to that length it yields the hash of the pieces put together.
pub assume_specification[ Xxh64::digest ](h: &Xxh64) -> (r: u64)
    ensures
        r == xxh64_streamed(fed(*h), seed_of(*h)),
        fed(*h).len() <= u64::MAX ==> r == xxh64_of(fed(*h), seed_of(*h)),
;

} // verus!
