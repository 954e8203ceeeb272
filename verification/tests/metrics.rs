//! Window counters and their aggregates.

use archiv_agent::metrics::{
    close_window, flush_interval, Aggregate, FlushAction, FlushEvent, FlushLoop, FlushWindow,
    Metrics, Sample, Sink, SinkError, FLUSH_INTERVAL_SECS,
};
use std::cell::RefCell;
use std::time::Duration;

/// Keeps what it is given.
#[derive(Default)]
struct CollectSink(RefCell<Vec<Aggregate>>);

impl Sink for CollectSink {
    fn deliver(&self, aggregate: &Aggregate) -> Result<(), SinkError> {
        self.0.borrow_mut().push(*aggregate);
        Ok(())
    }
}

fn sample(events_in: u64, dropped: u64, bytes_in: u64, bytes_out: u64) -> Sample {
    Sample {
        events_in,
        events_sampled_out: dropped,
        events_exported: events_in - dropped,
        bytes_in,
        bytes_exported: bytes_out,
        redaction_count: 0,
        failed_open: false,
    }
}

#[test]
fn sink_receives_flushed_aggregate() {
    let mut m = Metrics::new(0);
    m.record(&sample(4, 1, 40, 30));
    let sink = CollectSink::default();
    sink.deliver(&m.flush(0, 10_000)).expect("deliver");

    let got = sink.0.borrow();
    assert_eq!(got.len(), 1);
    assert_eq!(got[0].events_in, 4);
    assert_eq!(got[0].bytes_dropped, 10);
}

#[test]
fn flush_sums_inputs_then_resets() {
    let mut m = Metrics::new(0);
    m.record(&sample(10, 4, 1000, 600));
    m.record(&sample(5, 1, 500, 500));

    let agg = m.flush(100, 10_100);
    assert_eq!(agg.seq, 0);
    assert_eq!(agg.window_start_ms, 100);
    assert_eq!(agg.window_end_ms, 10_100);
    assert_eq!(agg.events_in, 15);
    assert_eq!(agg.events_sampled_out, 5);
    assert_eq!(agg.events_exported, 10);
    assert_eq!(agg.bytes_in, 1500);
    assert_eq!(agg.bytes_exported, 1100);
    assert_eq!(agg.bytes_dropped, 400); // (1000-600) + (500-500)

    // The next window starts empty, and its number follows.
    let empty = m.flush(10_100, 20_100);
    assert_eq!(empty.seq, 1);
    assert_eq!(empty.events_in, 0);
    assert_eq!(empty.bytes_dropped, 0);
}

#[test]
fn failopen_counts_only_governance_bypass() {
    let mut m = Metrics::new(0);
    let mut s = sample(1, 0, 10, 10);
    s.failed_open = true;
    m.record(&s);
    m.record(&sample(1, 0, 10, 10));
    assert_eq!(m.flush(0, 10_000).failopen_count, 1);
}

#[test]
fn bytes_dropped_saturates_when_output_grew() {
    let s = Sample {
        bytes_in: 100,
        bytes_exported: 130,
        ..Sample::default()
    };
    assert_eq!(s.bytes_dropped(), 0);
}

#[test]
fn many_records_lose_no_increment() {
    let mut m = Metrics::new(0);
    for _ in 0..80_000 {
        m.record(&sample(2, 1, 20, 12));
    }
    let agg = m.flush(0, 10_000);
    assert_eq!(agg.events_in, 8 * 10_000 * 2);
    assert_eq!(agg.events_sampled_out, 8 * 10_000);
    assert_eq!(agg.bytes_dropped, 8 * 10_000 * 8); // (20-12) per record
}

#[test]
fn display_and_json_are_numbers_only() {
    let agg = Metrics::new(3).flush(1, 2);
    let line = agg.to_string();
    assert!(line.contains("policy_version=3"));
    assert!(line.contains("bytes_dropped=0"));

    let json = agg.to_json();
    assert!(json.contains("\"bytes_dropped\":0"));
    assert!(!json.contains("body"));
}

#[test]
fn the_line_of_an_aggregate_is_exact() {
    let mut m = Metrics::new(7);
    m.record(&Sample {
        events_in: 3,
        events_sampled_out: 1,
        events_exported: 2,
        bytes_in: 90,
        bytes_exported: 60,
        redaction_count: 4,
        failed_open: true,
    });
    assert_eq!(
        m.flush(-5, 10).to_string(),
        "seq=0 window=[-5,10] policy_version=7 events_in=3 sampled_out=1 exported=2 \
         bytes_in=90 bytes_dropped=30 bytes_exported=60 redactions=4 failopen=1"
    );
}

#[test]
fn windows_tumble_without_gaps() {
    let mut w = FlushWindow::open(1_000);
    assert_eq!(w.close(11_000), (1_000, 11_000));
    assert_eq!(w.close(21_000), (11_000, 21_000));
}

#[test]
fn windows_are_ten_seconds() {
    assert_eq!(FLUSH_INTERVAL_SECS, 10);
    assert_eq!(flush_interval(), Duration::from_secs(10));
}

#[test]
fn windows_add_up_to_what_was_recorded() {
    let mut m = Metrics::new(1);
    m.record(&sample(3, 1, 30, 20));
    let a = m.flush(0, 10);
    m.record(&sample(5, 2, 50, 10));
    m.record(&sample(7, 7, 70, 0));
    let b = m.flush(10, 20);
    assert_eq!(a.events_in + b.events_in, 15);
    assert_eq!(a.events_sampled_out + b.events_sampled_out, 10);
    assert_eq!(a.events_exported + b.events_exported, 5);
    assert_eq!(a.bytes_dropped + b.bytes_dropped, 10 + 40 + 70);
}

#[test]
fn the_json_of_an_aggregate_is_exact() {
    let mut m = Metrics::new(u64::MAX);
    m.record(&Sample {
        events_in: 3,
        events_sampled_out: 1,
        events_exported: 2,
        bytes_in: 90,
        bytes_exported: 60,
        redaction_count: 4,
        failed_open: true,
    });
    let json = m.flush(i64::MIN, 10).to_json();
    assert_eq!(
        json,
        "{\"seq\":0,\"window_start_ms\":-9223372036854775808,\"window_end_ms\":10,\
         \"policy_version\":18446744073709551615,\"events_in\":3,\"events_sampled_out\":1,\
         \"events_exported\":2,\"bytes_in\":90,\"bytes_dropped\":30,\"bytes_exported\":60,\
         \"redaction_count\":4,\"failopen_count\":1}"
    );
    let value: serde_json::Value = serde_json::from_str(&json).expect("it is JSON");
    assert_eq!(value["window_start_ms"].as_i64(), Some(i64::MIN));
    assert_eq!(value["policy_version"].as_u64(), Some(u64::MAX));
    let object = value.as_object().expect("an object");
    assert_eq!(object.len(), 12);
    assert!(object.values().all(|v| v.is_number()));
}

#[test]
fn closed_windows_are_consecutive() {
    let mut m = Metrics::new(9);
    let mut w = FlushWindow::open(5);
    m.record(&sample(3, 1, 30, 20));
    let a = close_window(&mut m, &mut w, 10_005);
    m.record(&sample(2, 2, 10, 0));
    let b = close_window(&mut m, &mut w, 20_010);
    assert_eq!((a.seq, a.window_start_ms, a.window_end_ms), (0, 5, 10_005));
    assert_eq!((b.seq, b.window_start_ms, b.window_end_ms), (1, 10_005, 20_010));
    assert_eq!((a.events_in, b.events_in), (3, 2));
    assert_eq!((a.policy_version, b.policy_version), (9, 9));
}

#[test]
fn what_was_observed_outlives_its_window() {
    let mut m = Metrics::new(0);
    m.record(&sample(3, 1, 30, 20));
    m.flush(0, 10);
    m.record(&sample(4, 2, 40, 10));
    let all = m.observed();
    assert_eq!(all.events_in, 7);
    assert_eq!(all.events_sampled_out, 3);
    assert_eq!(all.events_exported, 4);
    assert_eq!(all.bytes_dropped, 40);
    assert_eq!(m.flush(10, 20).events_in, 4);
}

#[test]
fn every_window_is_delivered_once_whatever_the_sink_says() {
    let mut m = Metrics::new(4);
    let mut flush = FlushLoop::open(0);
    let events = [
        FlushEvent::Tick { now_ms: 10 },
        FlushEvent::Tick { now_ms: 20 },
        FlushEvent::Shutdown { now_ms: 23 },
    ];
    let mut delivered: Vec<(u64, i64, i64, u64)> = Vec::new();
    for (i, event) in events.into_iter().enumerate() {
        m.record(&sample(i as u64 + 1, 0, 10, 10));
        match flush.step(&mut m, event) {
            FlushAction::Deliver(a) => {
                delivered.push((a.seq, a.window_start_ms, a.window_end_ms, a.events_in));
            }
            other => panic!("expected a delivery, got {other:?}"),
        }
        // The sink takes only the second window.
        let next = flush.step(&mut m, FlushEvent::Delivered { taken: i == 1 });
        let expected = if i == 2 {
            FlushAction::Stop
        } else {
            FlushAction::Await
        };
        assert_eq!(next, expected);
    }
    assert_eq!(
        delivered,
        vec![(0, 0, 10, 1), (1, 10, 20, 2), (2, 20, 23, 3)]
    );
}

#[test]
fn a_shutdown_without_a_tick_delivers_one_window() {
    let mut m = Metrics::new(0);
    let mut flush = FlushLoop::open(5);
    assert!(matches!(
        flush.step(&mut m, FlushEvent::Shutdown { now_ms: 7 }),
        FlushAction::Deliver(Aggregate {
            seq: 0,
            window_start_ms: 5,
            window_end_ms: 7,
            ..
        })
    ));
    assert_eq!(
        flush.step(&mut m, FlushEvent::Delivered { taken: false }),
        FlushAction::Stop
    );
}
