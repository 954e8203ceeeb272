//! The keep/drop decision.

use archiv_agent::sampling::{bucket, fallback_key, keep, keep_untraced, ALGO_VERSION, SEED};
use xxhash_rust::xxh64::xxh64;

/// A fixed stream of numbers for test ids.
fn xorshift64(state: &mut u64) -> u64 {
    let mut x: u64 = *state;
    x ^= x << 13;
    x ^= x >> 7;
    x ^= x << 17;
    *state = x;
    x
}

fn test_id(state: &mut u64) -> [u8; 16] {
    let mut id = [0u8; 16];
    id[..8].copy_from_slice(&xorshift64(state).to_be_bytes());
    id[8..].copy_from_slice(&xorshift64(state).to_be_bytes());
    id
}

#[test]
fn target_0_drops_everything_target_100_keeps_everything() {
    let mut s: u64 = 0x243F_6A88_85A3_08D3u64;
    for _ in 0..10_000 {
        let id = test_id(&mut s);
        assert!(!keep(&id, 0));
        assert!(keep(&id, 100));
    }
}

#[test]
fn decision_is_pure_and_stable() {
    let id = [1u8; 16];
    for target in [1u8, 25, 50, 99] {
        let first = keep(&id, target);
        for _ in 0..100 {
            assert_eq!(keep(&id, target), first);
        }
    }
}

#[test]
fn bucket_and_keep_agree_at_every_target() {
    let mut s: u64 = 0x0123_4567_89AB_CDEFu64;
    for _ in 0..1_000 {
        let id = test_id(&mut s);
        let b: u8 = bucket(&id);
        for target in 0..=100u8 {
            assert_eq!(
                keep(&id, target),
                b < target,
                "id bucket {b} target {target}"
            );
        }
    }
}

#[test]
fn keep_rate_within_half_percentage_point() {
    let mut s: u64 = 0xDEAD_BEEF_CAFE_F00Du64;
    for target in [10u8, 25, 50, 75] {
        let mut kept: u32 = 0;
        let n: u32 = 1_000_000;
        for _ in 0..n {
            let id = test_id(&mut s);
            if keep(&id, target) {
                kept += 1;
            }
        }
        let rate_pct: f64 = kept as f64 * 100.0 / n as f64;
        assert!(
            (rate_pct - target as f64).abs() <= 0.5,
            "target {target}%: measured {rate_pct:.3}%"
        );
    }
}

#[test]
fn fallback_streaming_equals_concatenation() {
    // The separator matters.
    let k1: u64 = fallback_key(b"ab", b"c");
    let k2: u64 = fallback_key(b"a", b"bc");
    assert_ne!(k1, k2);

    // Streamed in three pieces, it is the hash of the whole.
    let mut concat: Vec<u8> = Vec::new();
    concat.extend_from_slice(b"checkout-service");
    concat.push(0);
    concat.extend_from_slice(b"user login succeeded");
    assert_eq!(
        fallback_key(b"checkout-service", b"user login succeeded"),
        xxh64(&concat, SEED)
    );
}

#[test]
fn constants_are_frozen() {
    assert_eq!(ALGO_VERSION, 1);
    assert_eq!(SEED, 0);
    // The published test value for the empty input.
    assert_eq!(xxh64(b"", SEED), 0xEF46_DB37_51D8_E999);
}

#[test]
fn bucket_is_the_hash_modulo_one_hundred() {
    let mut s: u64 = 7;
    for _ in 0..1_000 {
        let id = test_id(&mut s);
        assert_eq!(bucket(&id) as u64, xxh64(&id, SEED) % 100);
    }
}

#[test]
fn untraced_records_go_by_service_and_body() {
    for target in 0..=100u8 {
        assert_eq!(
            keep_untraced(b"web", b"hello", target),
            fallback_key(b"web", b"hello") % 100 < target as u64
        );
    }
}

#[test]
fn raising_the_target_never_drops_what_was_kept() {
    let mut s: u64 = 99;
    for _ in 0..200 {
        let id = test_id(&mut s);
        for target in 1..=100u8 {
            assert!(!keep(&id, target - 1) || keep(&id, target));
        }
    }
}
