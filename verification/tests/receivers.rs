//! What receivers decide and answer.

use archiv_agent::forward::{check_status, export_url, ForwardError};
use archiv_agent::grpc::{
    read_limit, refusal, reply, status_value, unframe, LOGS_EXPORT_PATH, STATUS_INVALID_ARGUMENT,
    STATUS_OK, STATUS_RESOURCE_EXHAUSTED, STATUS_UNAVAILABLE, STATUS_UNIMPLEMENTED,
};
use archiv_agent::metrics::{Metrics, Sample};
use archiv_agent::pipeline::Stats;
use archiv_agent::server::{
    http_metrics, http_not_found, http_reply, http_too_large, next_step, pool_size, route, sample,
    Progress, Route, Step, Verdict,
};
use bytes::Bytes;

fn frame(flag: u8, stated: u32, message: &[u8]) -> Bytes {
    let mut out: Vec<u8> = vec![flag];
    out.extend_from_slice(&stated.to_be_bytes());
    out.extend_from_slice(message);
    Bytes::from(out)
}

#[test]
fn frames_hold_one_message() {
    assert_eq!(
        unframe(&frame(0, 5, b"hello")),
        Ok(Bytes::from_static(b"hello"))
    );
    // What follows is ignored.
    assert_eq!(
        unframe(&frame(0, 2, b"hello")),
        Ok(Bytes::from_static(b"he"))
    );
    assert_eq!(unframe(&frame(0, 0, b"")), Ok(Bytes::new()));
    let long = vec![7u8; 70_000];
    assert_eq!(
        unframe(&frame(0, 70_000, &long)),
        Ok(Bytes::from(long.clone()))
    );
}

#[test]
fn bad_frames_are_refused() {
    assert_eq!(
        unframe(&Bytes::from_static(&[0, 0, 0, 0])),
        Err(STATUS_INVALID_ARGUMENT)
    );
    assert_eq!(
        unframe(&frame(0, 6, b"hello")),
        Err(STATUS_INVALID_ARGUMENT)
    );
    assert_eq!(
        unframe(&frame(0, u32::MAX, b"hello")),
        Err(STATUS_INVALID_ARGUMENT)
    );
    assert_eq!(unframe(&frame(1, 5, b"hello")), Err(STATUS_UNIMPLEMENTED));
}

#[test]
fn messages_are_views_of_the_body() {
    let body = frame(0, 5, b"hello");
    let message = unframe(&body).unwrap();
    assert_eq!(message.as_ptr() as usize, body.as_ptr() as usize + 5);
}

#[test]
fn grpc_requests_are_refused_by_head() {
    let kind = Some("application/grpc");
    assert_eq!(refusal(true, LOGS_EXPORT_PATH, kind), None);
    assert_eq!(
        refusal(true, LOGS_EXPORT_PATH, Some("application/grpc+proto")),
        None
    );
    assert_eq!(
        refusal(true, "/wrong/Method", kind),
        Some(STATUS_UNIMPLEMENTED)
    );
    assert_eq!(
        refusal(false, LOGS_EXPORT_PATH, kind),
        Some(STATUS_UNIMPLEMENTED)
    );
    assert_eq!(
        refusal(true, LOGS_EXPORT_PATH, Some("application/json")),
        Some(STATUS_INVALID_ARGUMENT)
    );
    assert_eq!(
        refusal(true, LOGS_EXPORT_PATH, None),
        Some(STATUS_INVALID_ARGUMENT)
    );
}

#[test]
fn grpc_statuses_follow_the_verdict() {
    assert_eq!(reply(Verdict::Accepted), (STATUS_OK, true));
    assert_eq!(
        reply(Verdict::Malformed),
        (STATUS_INVALID_ARGUMENT, false)
    );
    assert_eq!(
        reply(Verdict::ForwardFailed),
        (STATUS_UNAVAILABLE, false)
    );
    assert_eq!(status_value(STATUS_OK), "0");
    assert_eq!(status_value(STATUS_INVALID_ARGUMENT), "3");
    assert_eq!(status_value(STATUS_RESOURCE_EXHAUSTED), "8");
    assert_eq!(status_value(STATUS_UNIMPLEMENTED), "12");
    assert_eq!(status_value(STATUS_UNAVAILABLE), "14");
    assert_eq!(status_value(99), "2");
}

#[test]
fn grpc_bodies_may_be_a_header_longer() {
    assert_eq!(read_limit(100), 105);
    assert_eq!(read_limit(usize::MAX), usize::MAX);
}

#[test]
fn http_statuses_follow_the_verdict() {
    assert_eq!(http_reply(Verdict::Accepted).status, 200);
    assert_eq!(http_reply(Verdict::Malformed).status, 400);
    assert_eq!(http_reply(Verdict::ForwardFailed).status, 503);
    assert_eq!(http_too_large().status, 413);
    assert_eq!(http_not_found().status, 404);
}

#[test]
fn malformed_payloads_are_not_counted() {
    let stats = Stats {
        parse_bypassed: true,
        ..Stats::default()
    };
    for has_endpoint in [false, true] {
        assert_eq!(
            next_step(Progress::Processed(stats), has_endpoint, true),
            Step::Answer(Verdict::Malformed)
        );
    }
}

#[test]
fn payloads_are_forwarded_then_spooled_then_refused() {
    let stats = Stats {
        records_in: 3,
        kept: 2,
        dropped: 1,
        redactions: 4,
        bytes_in: 50,
        bytes_out: 40,
        ..Stats::default()
    };
    let numbers = sample(&stats);
    assert_eq!(numbers.events_in, 3);
    assert_eq!(numbers.events_exported, 2);
    assert_eq!(numbers.events_sampled_out, 1);
    assert_eq!(numbers.redaction_count, 4);
    assert!(!numbers.failed_open);
    assert_eq!(
        next_step(Progress::Processed(stats), true, true),
        Step::RecordAndForward(numbers)
    );
    assert_eq!(
        next_step(Progress::Processed(stats), false, true),
        Step::RecordAndAnswer(numbers, Verdict::Accepted)
    );
    assert_eq!(
        next_step(Progress::Forwarded, true, true),
        Step::Answer(Verdict::Accepted)
    );
    assert_eq!(next_step(Progress::NotForwarded, true, true), Step::Spool);
    assert_eq!(
        next_step(Progress::NotForwarded, true, false),
        Step::Answer(Verdict::ForwardFailed)
    );
    assert_eq!(
        next_step(Progress::Spooled, true, true),
        Step::Answer(Verdict::Accepted)
    );
    assert_eq!(
        next_step(Progress::NotSpooled, true, true),
        Step::Answer(Verdict::ForwardFailed)
    );
}

#[test]
fn bypasses_count_as_failing_open() {
    for (redact, assemble) in [(true, false), (false, true), (true, true)] {
        let stats = Stats {
            redact_bypassed: redact,
            assemble_bypassed: assemble,
            ..Stats::default()
        };
        assert!(sample(&stats).failed_open);
    }
}

#[test]
fn pools_have_at_least_one_of_each() {
    assert_eq!(pool_size(8192, 4), (8192, 4));
    assert_eq!(pool_size(0, 0), (1, 1));
}

#[test]
fn logs_go_below_the_endpoint() {
    for endpoint in ["http://a:4318", "http://a:4318/", "http://a:4318///"] {
        assert_eq!(export_url(endpoint).unwrap(), "http://a:4318/v1/logs");
    }
    assert_eq!(
        export_url("https://b/base/").unwrap(),
        "https://b/base/v1/logs"
    );
    for endpoint in ["ftp://a", "a:4318", ""] {
        assert!(matches!(
            export_url(endpoint),
            Err(ForwardError::UnsupportedScheme(ref e)) if e == endpoint
        ));
    }
}

#[test]
fn only_success_statuses_count() {
    for status in [200u16, 202, 299] {
        assert!(check_status(status).is_ok());
    }
    for status in [199u16, 300, 404, 503] {
        assert!(matches!(
            check_status(status),
            Err(ForwardError::Status(s)) if s == status
        ));
    }
}

#[test]
fn each_path_takes_its_own_method() {
    assert_eq!(route(false, true, "/v1/logs"), Route::Logs);
    assert_eq!(route(true, false, "/metrics"), Route::Metrics);
    assert_eq!(route(true, false, "/v1/logs"), Route::NotFound);
    assert_eq!(route(false, true, "/metrics"), Route::NotFound);
    assert_eq!(route(false, true, "/wrong"), Route::NotFound);
    assert_eq!(route(true, false, "/metrics/"), Route::NotFound);
    assert_eq!(route(false, false, "/v1/logs"), Route::NotFound);
}

#[test]
fn counters_are_served_as_text() {
    let mut m = Metrics::new(0);
    m.record(&Sample {
        events_in: 10,
        events_sampled_out: 4,
        events_exported: 6,
        bytes_in: 1000,
        bytes_exported: 600,
        redaction_count: 3,
        failed_open: true,
    });
    // Closing a window takes nothing back.
    m.flush(0, 10_000);
    let reply = http_metrics(&m.observed());
    assert_eq!(reply.status, 200);
    assert_eq!(
        reply.body,
        "archiv_events_in 10\n\
         archiv_events_sampled_out 4\n\
         archiv_events_exported 6\n\
         archiv_bytes_in 1000\n\
         archiv_bytes_dropped 400\n\
         archiv_bytes_exported 600\n\
         archiv_redactions 3\n\
         archiv_failopen 1\n"
    );
}
