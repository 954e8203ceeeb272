//! The books of the spool.

use archiv_agent::spool::{
    classify, file_name, jitter, parse_seq, tmp_name, Backoff, DrainAttempt, DrainOutcome, Spool,
    SpoolEntry, SpoolError,
};

/// Reserves and publishes one payload.
fn push(spool: &mut Spool, len: u64) -> Result<u64, SpoolError> {
    let room = spool.reserve(len)?;
    spool.settle(room, Ok(()))
}

#[test]
fn payloads_leave_in_the_order_they_came() {
    let mut spool = Spool::open(&Vec::new(), 1 << 20);
    for _ in 0..3 {
        push(&mut spool, 8).unwrap();
    }
    assert_eq!(spool.stats(), (3, 24));

    let mut order: Vec<u64> = Vec::new();
    while let Some((seq, len)) = spool.oldest() {
        assert_eq!(
            spool.drained(seq, len, DrainAttempt::Forwarded),
            DrainOutcome::Delivered
        );
        order.push(seq);
    }
    assert_eq!(order, vec![0, 1, 2]);
    assert_eq!(spool.stats(), (0, 0));
}

#[test]
fn a_full_spool_refuses_and_evicts_nothing() {
    let mut spool = Spool::open(&Vec::new(), 16);
    push(&mut spool, 10).unwrap();
    let err = push(&mut spool, 10).unwrap_err();
    assert!(matches!(
        err,
        SpoolError::Full {
            current: 10,
            max: 16
        }
    ));
    assert_eq!(spool.stats(), (1, 10), "the first payload is untouched");
    // What fits exactly is taken.
    push(&mut spool, 6).unwrap();
    assert_eq!(spool.stats(), (2, 16));
}

#[test]
fn recovery_counts_again_and_goes_on_counting() {
    let files = vec![
        (file_name(1), 7),
        (file_name(0), 5),
        ("00000000000000000099.otlp.tmp".to_string(), 4),
        ("README".to_string(), 1000),
    ];
    let mut spool = Spool::open(&files, 1 << 20);
    assert_eq!(spool.stats(), (2, 12));
    assert_eq!(push(&mut spool, 3).unwrap(), 2);
    assert_eq!(spool.oldest(), Some((0, 5)));
    assert_eq!(spool.stats(), (3, 15));
}

#[test]
fn a_payload_stays_while_the_destination_is_down() {
    let mut spool = Spool::open(&Vec::new(), 1 << 20);
    let seq = push(&mut spool, 12).unwrap();
    assert_eq!(
        spool.drained(seq, 12, DrainAttempt::Refused),
        DrainOutcome::Retry
    );
    assert_eq!(spool.stats(), (1, 12));
}

#[test]
fn an_unreadable_payload_stays_until_it_is_restored() {
    let mut spool = Spool::open(&Vec::new(), 1 << 20);
    let seq = push(&mut spool, 12).unwrap();
    assert_eq!(
        spool.drained(seq, 12, DrainAttempt::Unreadable),
        DrainOutcome::Retry
    );
    assert_eq!(spool.stats(), (1, 12));
    assert_eq!(
        spool.drained(seq, 12, DrainAttempt::Forwarded),
        DrainOutcome::Delivered
    );
    assert_eq!(spool.stats(), (0, 0));
    assert_eq!(spool.oldest(), None);
}

#[test]
fn a_failed_write_gives_its_room_back() {
    let mut spool = Spool::open(&Vec::new(), 16);
    let room = spool.reserve(10).unwrap();
    assert_eq!(room.seq(), 0);
    assert_eq!(spool.stats(), (0, 10), "reserved, not published");
    let err = spool.settle(room, Err("disk on fire".to_string())).unwrap_err();
    assert!(matches!(err, SpoolError::Io(ref e) if e == "disk on fire"));
    assert_eq!(spool.stats(), (0, 0));
    // Its number is not used again.
    assert_eq!(push(&mut spool, 16).unwrap(), 1);
}

#[test]
fn reserved_room_counts_against_the_cap() {
    let mut spool = Spool::open(&Vec::new(), 16);
    let first = spool.reserve(10).unwrap();
    assert!(spool.reserve(10).is_err());
    spool.settle(first, Ok(())).unwrap();
    assert_eq!(spool.stats(), (1, 10));
}

#[test]
fn names_have_twenty_digits() {
    assert_eq!(file_name(7), "00000000000000000007.otlp");
    assert_eq!(tmp_name(7), "00000000000000000007.otlp.tmp");
    assert_eq!(file_name(u64::MAX), "18446744073709551615.otlp");
    for seq in [0u64, 1, 99, 1_000_000, u64::MAX] {
        assert_eq!(parse_seq(&file_name(seq)), Some(seq));
        assert_eq!(parse_seq(&tmp_name(seq)), None);
    }
}

#[test]
fn only_published_names_parse() {
    for name in [
        "7.otlp",
        "00000000000000000007",
        "0000000000000000000x.otlp",
        "000000000000000000007.otlp",
        "99999999999999999999.otlp",
        "",
        ".otlp",
    ] {
        assert_eq!(parse_seq(name), None, "{name}");
    }
}

#[test]
fn files_are_told_apart_by_name() {
    assert_eq!(
        classify("00000000000000000003.otlp"),
        SpoolEntry::Payload(3)
    );
    assert_eq!(
        classify("00000000000000000003.otlp.tmp"),
        SpoolEntry::Stray
    );
    assert_eq!(classify("x.tmp"), SpoolEntry::Stray);
    assert_eq!(
        classify("00000000000000000003.otlp.held"),
        SpoolEntry::Foreign
    );
}

#[test]
fn delays_double_up_to_half_a_minute() {
    let mut b = Backoff::new();
    let mut waits: Vec<u64> = Vec::new();
    for _ in 0..7 {
        waits.push(b.after(DrainOutcome::Retry, 0));
    }
    assert_eq!(
        waits,
        vec![1_000, 2_000, 4_000, 8_000, 16_000, 30_000, 30_000]
    );
    // A delivery goes on at once and starts over.
    assert_eq!(b.after(DrainOutcome::Delivered, 0), 0);
    assert_eq!(b.after(DrainOutcome::Retry, 0), 1_000);
    assert_eq!(b.after(DrainOutcome::Idle, 0), 1_000);
}

#[test]
fn jitter_is_under_a_quarter_second() {
    assert_eq!(jitter(0), 0);
    assert_eq!(jitter(251), 1);
    assert_eq!(jitter(999_999_999), 249);
    let mut b = Backoff::new();
    assert_eq!(b.after(DrainOutcome::Retry, 123), 1_123);
}

#[test]
fn recovered_payloads_leave_before_new_ones() {
    let files = vec![(file_name(9), 2), (file_name(4), 1)];
    let mut spool = Spool::open(&files, 1 << 20);
    assert_eq!(push(&mut spool, 3).unwrap(), 10);
    assert_eq!(push(&mut spool, 4).unwrap(), 11);
    let mut order: Vec<(u64, u64)> = Vec::new();
    while let Some((seq, len)) = spool.oldest() {
        spool.drained(seq, len, DrainAttempt::Forwarded);
        order.push((seq, len));
    }
    assert_eq!(order, vec![(4, 1), (9, 2), (10, 3), (11, 4)]);
}
