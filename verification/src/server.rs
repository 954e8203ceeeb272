//! Decisions of the receivers: what is recorded, what happens to a governed
//! payload, and what the sender is told.
//!
//! A payload that does not parse is a client error. One that was forwarded,
//! or is safely spooled, or need not be forwarded, is accepted. Anything else
//! asks the sender to retry: a payload that the agent does not hold is never
//! acknowledged. The counters that requests add up to can be read back.

use crate::metrics::{Sample, WindowCounters};
use crate::pipeline::Stats;
use crate::text;
use vstd::prelude::*;

verus! {

/// Result of one payload, for any transport.
#[derive(Debug, Clone, Copy, PartialEq, Eq, Structural)]
pub enum Verdict {
    /// Processed, and forwarded or held where that was asked for.
    Accepted,
    /// Not an OTLP request.
    Malformed,
    /// Neither forwarded nor held: the sender should retry.
    ForwardFailed,
}

/// The numbers of one request, as far as they are aggregated.
pub open spec fn sample_of(stats: Stats) -> Sample {
    Sample {
        events_in: stats.records_in as u64,
        events_sampled_out: stats.dropped as u64,
        events_exported: stats.kept as u64,
        bytes_in: stats.bytes_in as u64,
        bytes_exported: stats.bytes_out as u64,
        redaction_count: stats.redactions as u64,
        failed_open: stats.redact_bypassed || stats.assemble_bypassed,
    }
}

/// The numbers of one request, as far as they are aggregated.
pub fn sample(stats: &Stats) -> (s: Sample)
    ensures
        s == sample_of(*stats),
{
    Sample {
        events_in: stats.records_in as u64,
        events_sampled_out: stats.dropped as u64,
        events_exported: stats.kept as u64,
        bytes_in: stats.bytes_in as u64,
        bytes_exported: stats.bytes_out as u64,
        redaction_count: stats.redactions as u64,
        failed_open: stats.redact_bypassed || stats.assemble_bypassed,
    }
}

/// What is known of a payload on its way.
#[derive(Debug, Clone, Copy, PartialEq, Eq, Structural)]
pub enum Progress {
    /// The pipeline is done with it.
    Processed(Stats),
    /// The destination took it.
    Forwarded,
    /// The destination did not take it.
    NotForwarded,
    /// It is durably spooled.
    Spooled,
    /// It could not be spooled.
    NotSpooled,
}

/// What to do with a payload next.
#[derive(Debug, Clone, Copy, PartialEq, Eq, Structural)]
pub enum Step {
    /// Tell the sender.
    Answer(Verdict),
    /// Count the request, then tell the sender.
    RecordAndAnswer(Sample, Verdict),
    /// Count the request, then forward it.
    RecordAndForward(Sample),
    /// Hold it on disk.
    Spool,
}

/// The next step: a malformed payload is refused and not counted; without a
/// destination a processed one is accepted; one that could not be forwarded is
/// spooled where there is a spool.
pub open spec fn step_after(progress: Progress, has_endpoint: bool, has_spool: bool) -> Step {
    match progress {
        Progress::Processed(stats) => if stats.parse_bypassed {
            Step::Answer(Verdict::Malformed)
        } else if has_endpoint {
            Step::RecordAndForward(sample_of(stats))
        } else {
            Step::RecordAndAnswer(sample_of(stats), Verdict::Accepted)
        },
        Progress::Forwarded => Step::Answer(Verdict::Accepted),
        Progress::NotForwarded => if has_spool {
            Step::Spool
        } else {
            Step::Answer(Verdict::ForwardFailed)
        },
        Progress::Spooled => Step::Answer(Verdict::Accepted),
        Progress::NotSpooled => Step::Answer(Verdict::ForwardFailed),
    }
}

/// Decides the next step for a payload.
pub fn next_step(progress: Progress, has_endpoint: bool, has_spool: bool) -> (r: Step)
    ensures
        r == step_after(progress, has_endpoint, has_spool),
{
    match progress {
        Progress::Processed(stats) => {
            if stats.parse_bypassed {
                Step::Answer(Verdict::Malformed)
            } else if has_endpoint {
                Step::RecordAndForward(sample(&stats))
            } else {
                Step::RecordAndAnswer(sample(&stats), Verdict::Accepted)
            }
        },
        Progress::Forwarded => Step::Answer(Verdict::Accepted),
        Progress::NotForwarded => if has_spool {
            Step::Spool
        } else {
            Step::Answer(Verdict::ForwardFailed)
        },
        Progress::Spooled => Step::Answer(Verdict::Accepted),
        Progress::NotSpooled => Step::Answer(Verdict::ForwardFailed),
    }
}

/// Whether a step tells the sender that its payload is accepted.
pub open spec fn acknowledges(s: Step) -> bool {
    s == Step::Answer(Verdict::Accepted) || (s matches Step::RecordAndAnswer(_, v) && v
        == Verdict::Accepted)
}

/// Never a false accept: a payload is acknowledged only where it was forwarded,
/// or is durably held, or parsed and there is nowhere to forward it to.
pub proof fn law_no_false_accept(progress: Progress, has_endpoint: bool, has_spool: bool)
    requires
        acknowledges(step_after(progress, has_endpoint, has_spool)),
    ensures
        progress == Progress::Forwarded || progress == Progress::Spooled || (
        progress matches Progress::Processed(stats) && !stats.parse_bypassed && !has_endpoint),
{
}

/// A payload that the destination did not take, and that cannot be held, is
/// handed back to the sender.
pub proof fn law_nothing_is_dropped_silently(has_endpoint: bool, has_spool: bool)
    ensures
        step_after(Progress::NotForwarded, has_endpoint, has_spool) == Step::Spool || step_after(
            Progress::NotForwarded,
            has_endpoint,
            has_spool,
        ) == Step::Answer(Verdict::ForwardFailed),
        step_after(Progress::NotSpooled, has_endpoint, has_spool) == Step::Answer(
            Verdict::ForwardFailed,
        ),
{
}

/// Path that logs are posted to.
pub const LOGS_PATH: &'static str = "/v1/logs";

/// Path that the counters are read from.
pub const METRICS_PATH: &'static str = "/metrics";

/// An answer of the HTTP receiver: status and body.
#[derive(Debug, Clone, Copy)]
pub struct HttpReply {
    pub status: u16,
    pub body: &'static str,
}

/// The HTTP answer to a verdict.
pub open spec fn http_reply_of(v: Verdict) -> HttpReply {
    match v {
        Verdict::Accepted => HttpReply { status: 200, body: "" },
        Verdict::Malformed => HttpReply { status: 400, body: "unparseable OTLP\n" },
        Verdict::ForwardFailed => HttpReply { status: 503, body: "forward failed\n" },
    }
}

/// The HTTP answer to a verdict.
pub fn http_reply(v: Verdict) -> (r: HttpReply)
    ensures
        r == http_reply_of(v),
{
    match v {
        Verdict::Accepted => HttpReply { status: 200, body: "" },
        Verdict::Malformed => HttpReply { status: 400, body: "unparseable OTLP\n" },
        Verdict::ForwardFailed => HttpReply { status: 503, body: "forward failed\n" },
    }
}

/// What an HTTP request is for.
#[derive(Debug, Clone, Copy, PartialEq, Eq, Structural)]
pub enum Route {
    /// A logs export.
    Logs,
    /// The counters observed so far.
    Metrics,
    /// Nothing that is served.
    NotFound,
}

/// What an HTTP request is for: a POST to the logs path or a GET of the
/// metrics path.
pub open spec fn route_of(is_get: bool, is_post: bool, path: Seq<char>) -> Route {
    if is_get && path == METRICS_PATH@ {
        Route::Metrics
    } else if is_post && path == LOGS_PATH@ {
        Route::Logs
    } else {
        Route::NotFound
    }
}

/// Decides what an HTTP request is for.
pub fn route(is_get: bool, is_post: bool, path: &str) -> (r: Route)
    ensures
        r == route_of(is_get, is_post, path@),
{
    if is_get && text::str_eq(path, METRICS_PATH) {
        Route::Metrics
    } else if is_post && text::str_eq(path, LOGS_PATH) {
        Route::Logs
    } else {
        Route::NotFound
    }
}

/// The HTTP answer to a request for nothing that is served.
pub fn http_not_found() -> (r: HttpReply)
    ensures
        r == (HttpReply { status: 404, body: "not found\n" }),
{
    HttpReply { status: 404, body: "not found\n" }
}

/// An answer of the HTTP receiver whose body is made for it.
#[derive(Debug)]
pub struct TextReply {
    pub status: u16,
    pub body: String,
}

/// The HTTP answer to a request for the counters: all that was observed so
/// far, as text.
pub fn http_metrics(observed: &WindowCounters) -> (r: TextReply)
    ensures
        r.status == 200,
        r.body@ == observed.text(),
{
    TextReply { status: 200, body: observed.to_text() }
}

/// The HTTP answer to a body over the size cap.
pub fn http_too_large() -> (r: HttpReply)
    ensures
        r == (HttpReply { status: 413, body: "too large\n" }),
{
    HttpReply { status: 413, body: "too large\n" }
}

/// Queue bound and number of workers of a pool: at least one of each.
pub fn pool_size(capacity: usize, workers: usize) -> (r: (usize, usize))
    ensures
        r.0 == (if capacity > 0 {
            capacity
        } else {
            1
        }),
        r.1 == (if workers > 0 {
            workers
        } else {
            1
        }),
{
    (
        if capacity > 0 {
            capacity
        } else {
            1
        },
        if workers > 0 {
            workers
        } else {
            1
        },
    )
}

/// What is counted of a request: every record that came in, as kept or as
/// dropped, the bytes that came and the bytes that leave, every span, and
/// whether redaction or assembly was left out. A parse failure alone is none.
pub proof fn law_what_is_counted(stats: Stats)
    requires
        stats.records_in == stats.kept + stats.dropped,
    ensures
        sample_of(stats).events_in == stats.records_in,
        sample_of(stats).events_exported == stats.kept,
        sample_of(stats).events_sampled_out == stats.dropped,
        sample_of(stats).events_in == sample_of(stats).events_exported + sample_of(
            stats,
        ).events_sampled_out,
        sample_of(stats).bytes_in == stats.bytes_in,
        sample_of(stats).bytes_exported == stats.bytes_out,
        sample_of(stats).redaction_count == stats.redactions,
        sample_of(stats).failed_open <==> stats.redact_bypassed || stats.assemble_bypassed,
{
}

/// The whole way of a payload, given whether the destination takes it and
/// whether it can be held. One that does not parse is refused and not counted.
/// Any other is counted once, first of all. It is accepted where there is no
/// destination, where the destination takes it, or where it is held; it is
/// held only after the destination did not take it, and only where there is a
/// spool; else the sender is asked to retry.
pub proof fn law_the_way_of_a_payload(
    stats: Stats,
    has_endpoint: bool,
    has_spool: bool,
    taken: bool,
    held: bool,
)
    ensures
        ({
            let first = step_after(Progress::Processed(stats), has_endpoint, has_spool);
            let sent = step_after(
                if taken {
                    Progress::Forwarded
                } else {
                    Progress::NotForwarded
                },
                has_endpoint,
                has_spool,
            );
            let kept = step_after(
                if held {
                    Progress::Spooled
                } else {
                    Progress::NotSpooled
                },
                has_endpoint,
                has_spool,
            );
            &&& stats.parse_bypassed ==> first == Step::Answer(Verdict::Malformed)
            &&& !stats.parse_bypassed && !has_endpoint ==> first == Step::RecordAndAnswer(
                sample_of(stats),
                Verdict::Accepted,
            )
            &&& !stats.parse_bypassed && has_endpoint ==> first == Step::RecordAndForward(
                sample_of(stats),
            )
            &&& taken ==> sent == Step::Answer(Verdict::Accepted)
            &&& !taken && has_spool ==> sent == Step::Spool
            &&& !taken && !has_spool ==> sent == Step::Answer(Verdict::ForwardFailed)
            &&& held ==> kept == Step::Answer(Verdict::Accepted)
            &&& !held ==> kept == Step::Answer(Verdict::ForwardFailed)
        }),
{
}

/// A sender reads from the status what to do: 200 where its payload is
/// accepted, 400 where it must not send it again, 503 where it should.
pub proof fn law_statuses_tell_senders_what_to_do(v: Verdict)
    ensures
        http_reply_of(v).status == 200 <==> v == Verdict::Accepted,
        http_reply_of(v).status == 400 <==> v == Verdict::Malformed,
        http_reply_of(v).status == 503 <==> v == Verdict::ForwardFailed,
        http_reply_of(v).body@.len() == 0 <==> v == Verdict::Accepted,
{
    reveal_strlit("");
    reveal_strlit("unparseable OTLP\n");
    reveal_strlit("forward failed\n");
}

/// Logs are posted to `/v1/logs`, counters are read from `/metrics`, and
/// nothing else is served.
pub proof fn law_two_paths_are_served(is_get: bool, is_post: bool, path: Seq<char>)
    requires
        !(is_get && is_post),
    ensures
        route_of(is_get, is_post, path) == Route::Logs <==> is_post && path == "/v1/logs"@,
        route_of(is_get, is_post, path) == Route::Metrics <==> is_get && path == "/metrics"@,
{
}

} // verus!
