//! Numbers-only aggregation.
//!
//! Outcomes of requests are folded into the counters of a window; flushing
//! closes the window. Every field is a number: record bodies, attribute keys
//! and values cannot be represented here. Wall-clock times are passed in.

use crate::clock;
use crate::text;
use core::time::Duration;
use vstd::prelude::*;
use vstd::string::*;

verus! {

/// Length of a window in whole seconds. Fixed, never a policy setting.
pub const FLUSH_INTERVAL_SECS: u64 = 10;

/// Length of a window.
pub fn flush_interval() -> (d: Duration)
    ensures
        clock::nanos_of(d) == 10_000_000_000,
{
    Duration::from_secs(FLUSH_INTERVAL_SECS)
}

/// One request's outcome in numbers.
#[derive(Debug, Clone, Copy, PartialEq, Eq, Structural)]
pub struct Sample {
    /// Records parsed from the request.
    pub events_in: u64,
    /// Records dropped by sampling.
    pub events_sampled_out: u64,
    /// Records that survived sampling.
    pub events_exported: u64,
    /// Size of the request as received.
    pub bytes_in: u64,
    /// Size of the governed request.
    pub bytes_exported: u64,
    /// Replacement spans.
    pub redaction_count: u64,
    /// Redaction or assembly was bypassed. A malformed request is a client
    /// error and does not count.
    pub failed_open: bool,
}

impl Default for Sample {
    fn default() -> (s: Self)
        ensures
            s == (Sample {
                events_in: 0,
                events_sampled_out: 0,
                events_exported: 0,
                bytes_in: 0,
                bytes_exported: 0,
                redaction_count: 0,
                failed_open: false,
            }),
    {
        Sample {
            events_in: 0,
            events_sampled_out: 0,
            events_exported: 0,
            bytes_in: 0,
            bytes_exported: 0,
            redaction_count: 0,
            failed_open: false,
        }
    }
}

impl Sample {
    /// Bytes saved on a request; none where the output grew.
    pub open spec fn saved(self) -> u64 {
        if self.bytes_in > self.bytes_exported {
            (self.bytes_in - self.bytes_exported) as u64
        } else {
            0
        }
    }

    /// Bytes saved on this request; none where the output grew.
    pub fn bytes_dropped(&self) -> (r: u64)
        ensures
            r == self.saved(),
    {
        self.bytes_in.saturating_sub(self.bytes_exported)
    }
}

/// The counters of a window, each in 64 bits.
#[derive(Debug, Clone, Copy, PartialEq, Eq, Structural)]
pub struct WindowCounters {
    pub events_in: u64,
    pub events_sampled_out: u64,
    pub events_exported: u64,
    pub bytes_in: u64,
    pub bytes_dropped: u64,
    pub bytes_exported: u64,
    pub redaction_count: u64,
    pub failopen_count: u64,
}

/// A sum in 64 bits.
#[verifier::opaque]
pub open spec fn sum64(a: u64, b: u64) -> u64 {
    ((a + b) % 0x1_0000_0000_0000_0000) as u64
}

/// Adds in 64 bits.
fn add64(a: u64, b: u64) -> (r: u64)
    ensures
        r == sum64(a, b),
{
    proof {
        reveal(sum64);
    }
    a.wrapping_add(b)
}

/// One where a condition holds.
pub open spec fn one_if(b: bool) -> u64 {
    if b {
        1
    } else {
        0
    }
}

/// One counter with its name, as a line.
pub open spec fn counter_line(name: Seq<char>, n: u64) -> Seq<char> {
    name + " "@ + text::decimal(n as nat) + "\n"@
}

fn append_line(s: &mut String, name: &str, n: u64)
    ensures
        final(s)@ == old(s)@ + counter_line(name@, n),
{
    let d = text::decimal_string(n);
    s.append(name);
    s.append(" ");
    s.append(d.as_str());
    s.append("\n");
    assert(s@ =~= old(s)@ + counter_line(name@, n));
}

impl WindowCounters {
    /// The counters as text, one line for each.
    pub open spec fn text(self) -> Seq<char> {
        counter_line("archiv_events_in"@, self.events_in) + counter_line(
            "archiv_events_sampled_out"@,
            self.events_sampled_out,
        ) + counter_line("archiv_events_exported"@, self.events_exported) + counter_line(
            "archiv_bytes_in"@,
            self.bytes_in,
        ) + counter_line("archiv_bytes_dropped"@, self.bytes_dropped) + counter_line(
            "archiv_bytes_exported"@,
            self.bytes_exported,
        ) + counter_line("archiv_redactions"@, self.redaction_count) + counter_line(
            "archiv_failopen"@,
            self.failopen_count,
        )
    }

    /// The counters as text, one line for each.
    pub fn to_text(&self) -> (s: String)
        ensures
            s@ == self.text(),
    {
        let mut s = String::new();
        append_line(&mut s, "archiv_events_in", self.events_in);
        append_line(&mut s, "archiv_events_sampled_out", self.events_sampled_out);
        append_line(&mut s, "archiv_events_exported", self.events_exported);
        append_line(&mut s, "archiv_bytes_in", self.bytes_in);
        append_line(&mut s, "archiv_bytes_dropped", self.bytes_dropped);
        append_line(&mut s, "archiv_bytes_exported", self.bytes_exported);
        append_line(&mut s, "archiv_redactions", self.redaction_count);
        append_line(&mut s, "archiv_failopen", self.failopen_count);
        assert(s@ =~= self.text());
        s
    }

    /// The counters with one more request.
    pub open spec fn with(self, s: Sample) -> WindowCounters {
        WindowCounters {
            events_in: sum64(self.events_in, s.events_in),
            events_sampled_out: sum64(self.events_sampled_out, s.events_sampled_out),
            events_exported: sum64(self.events_exported, s.events_exported),
            bytes_in: sum64(self.bytes_in, s.bytes_in),
            bytes_dropped: sum64(self.bytes_dropped, s.saved()),
            bytes_exported: sum64(self.bytes_exported, s.bytes_exported),
            redaction_count: sum64(self.redaction_count, s.redaction_count),
            failopen_count: sum64(self.failopen_count, one_if(s.failed_open)),
        }
    }

    /// The counters with several more requests.
    pub open spec fn with_all(self, samples: Seq<Sample>) -> WindowCounters
        decreases samples.len(),
    {
        if samples.len() == 0 {
            self
        } else {
            self.with_all(samples.drop_last()).with(samples.last())
        }
    }

    fn record(&mut self, s: &Sample)
        ensures
            *final(self) == old(self).with(*s),
    {
        self.events_in = add64(self.events_in, s.events_in);
        self.events_sampled_out = add64(self.events_sampled_out, s.events_sampled_out);
        self.events_exported = add64(self.events_exported, s.events_exported);
        self.bytes_in = add64(self.bytes_in, s.bytes_in);
        self.bytes_dropped = add64(self.bytes_dropped, s.bytes_dropped());
        self.bytes_exported = add64(self.bytes_exported, s.bytes_exported);
        self.redaction_count = add64(self.redaction_count, s.redaction_count);
        let failed: u64 = if s.failed_open {
            1
        } else {
            0
        };
        self.failopen_count = add64(self.failopen_count, failed);
    }

    /// Reads and resets every counter.
    fn drain(&mut self) -> (d: WindowCounters)
        ensures
            d == *old(self),
            *final(self) == no_counts(),
    {
        let d = *self;
        *self = Self::none();
        d
    }

    fn none() -> (c: Self)
        ensures
            c == no_counts(),
    {
        WindowCounters {
            events_in: 0,
            events_sampled_out: 0,
            events_exported: 0,
            bytes_in: 0,
            bytes_dropped: 0,
            bytes_exported: 0,
            redaction_count: 0,
            failopen_count: 0,
        }
    }
}

/// Counters that have counted nothing.
pub open spec fn no_counts() -> WindowCounters {
    WindowCounters {
        events_in: 0,
        events_sampled_out: 0,
        events_exported: 0,
        bytes_in: 0,
        bytes_dropped: 0,
        bytes_exported: 0,
        redaction_count: 0,
        failopen_count: 0,
    }
}

/// A closed window: the numbers that leave the node.
#[derive(Debug, Clone, Copy, PartialEq, Eq, Structural)]
pub struct Aggregate {
    /// Counts the windows of this agent, from zero.
    pub seq: u64,
    /// Window bounds in milliseconds since the epoch.
    pub window_start_ms: i64,
    pub window_end_ms: i64,
    /// Fingerprint of the active policy.
    pub policy_version: u64,
    pub events_in: u64,
    pub events_sampled_out: u64,
    pub events_exported: u64,
    pub bytes_in: u64,
    pub bytes_dropped: u64,
    pub bytes_exported: u64,
    pub redaction_count: u64,
    pub failopen_count: u64,
}

/// A signed number in decimal.
pub open spec fn signed_decimal(n: int) -> Seq<char> {
    if n < 0 {
        "-"@ + text::decimal((-n) as nat)
    } else {
        text::decimal(n as nat)
    }
}

fn append_unsigned(s: &mut String, n: u64)
    ensures
        final(s)@ == old(s)@ + text::decimal(n as nat),
{
    let d = text::decimal_string(n);
    s.append(d.as_str());
}

fn append_signed(s: &mut String, n: i64)
    ensures
        final(s)@ == old(s)@ + signed_decimal(n as int),
{
    if n < 0 {
        s.append("-");
        // The magnitude of the lowest number has no positive counterpart.
        let magnitude: u64 = (-(n as i128)) as u64;
        append_unsigned(s, magnitude);
        assert(s@ =~= old(s)@ + signed_decimal(n as int));
    } else {
        append_unsigned(s, n as u64);
    }
}

/// A number under its name, as a member of a JSON object.
pub open spec fn json_field(name: Seq<char>, n: int) -> Seq<char> {
    "\""@ + name + "\":"@ + signed_decimal(n)
}

fn append_signed_field(s: &mut String, name: &str, n: i64)
    ensures
        final(s)@ == old(s)@ + json_field(name@, n as int),
{
    s.append("\"");
    s.append(name);
    s.append("\":");
    append_signed(s, n);
    assert(s@ =~= old(s)@ + json_field(name@, n as int));
}

fn append_field(s: &mut String, name: &str, n: u64)
    ensures
        final(s)@ == old(s)@ + json_field(name@, n as int),
{
    s.append("\"");
    s.append(name);
    s.append("\":");
    append_unsigned(s, n);
    assert(s@ =~= old(s)@ + json_field(name@, n as int));
}

impl Aggregate {
    /// The line that reports this window.
    pub open spec fn line(self) -> Seq<char> {
        "seq="@ + text::decimal(self.seq as nat) + " window=["@ + signed_decimal(
            self.window_start_ms as int,
        ) + ","@ + signed_decimal(self.window_end_ms as int) + "] policy_version="@
            + text::decimal(self.policy_version as nat) + " events_in="@ + text::decimal(
            self.events_in as nat,
        ) + " sampled_out="@ + text::decimal(self.events_sampled_out as nat) + " exported="@
            + text::decimal(self.events_exported as nat) + " bytes_in="@ + text::decimal(
            self.bytes_in as nat,
        ) + " bytes_dropped="@ + text::decimal(self.bytes_dropped as nat) + " bytes_exported="@
            + text::decimal(self.bytes_exported as nat) + " redactions="@ + text::decimal(
            self.redaction_count as nat,
        ) + " failopen="@ + text::decimal(self.failopen_count as nat)
    }

    /// The line that reports this window.
    pub fn to_string(&self) -> (s: String)
        ensures
            s@ == self.line(),
    {
        let mut s = "seq=".to_owned();
        append_unsigned(&mut s, self.seq);
        s.append(" window=[");
        append_signed(&mut s, self.window_start_ms);
        s.append(",");
        append_signed(&mut s, self.window_end_ms);
        s.append("] policy_version=");
        append_unsigned(&mut s, self.policy_version);
        s.append(" events_in=");
        append_unsigned(&mut s, self.events_in);
        s.append(" sampled_out=");
        append_unsigned(&mut s, self.events_sampled_out);
        s.append(" exported=");
        append_unsigned(&mut s, self.events_exported);
        s.append(" bytes_in=");
        append_unsigned(&mut s, self.bytes_in);
        s.append(" bytes_dropped=");
        append_unsigned(&mut s, self.bytes_dropped);
        s.append(" bytes_exported=");
        append_unsigned(&mut s, self.bytes_exported);
        s.append(" redactions=");
        append_unsigned(&mut s, self.redaction_count);
        s.append(" failopen=");
        append_unsigned(&mut s, self.failopen_count);
        s
    }

    /// This window as a flat object of numbers.
    pub open spec fn json(self) -> Seq<char> {
        "{"@
            + json_field("seq"@, self.seq as int) + ","@
            + json_field("window_start_ms"@, self.window_start_ms as int) + ","@
            + json_field("window_end_ms"@, self.window_end_ms as int) + ","@
            + json_field("policy_version"@, self.policy_version as int) + ","@
            + json_field("events_in"@, self.events_in as int) + ","@
            + json_field("events_sampled_out"@, self.events_sampled_out as int) + ","@
            + json_field("events_exported"@, self.events_exported as int) + ","@
            + json_field("bytes_in"@, self.bytes_in as int) + ","@
            + json_field("bytes_dropped"@, self.bytes_dropped as int) + ","@
            + json_field("bytes_exported"@, self.bytes_exported as int) + ","@
            + json_field("redaction_count"@, self.redaction_count as int) + ","@
            + json_field("failopen_count"@, self.failopen_count as int)
            + "}"@
    }

    /// This window as a flat object of numbers, in JSON.
    pub fn to_json(&self) -> (s: String)
        ensures
            s@ == self.json(),
    {
        let mut s = "{".to_owned();
        append_field(&mut s, "seq", self.seq);
        s.append(",");
        append_signed_field(&mut s, "window_start_ms", self.window_start_ms);
        s.append(",");
        append_signed_field(&mut s, "window_end_ms", self.window_end_ms);
        s.append(",");
        append_field(&mut s, "policy_version", self.policy_version);
        s.append(",");
        append_field(&mut s, "events_in", self.events_in);
        s.append(",");
        append_field(&mut s, "events_sampled_out", self.events_sampled_out);
        s.append(",");
        append_field(&mut s, "events_exported", self.events_exported);
        s.append(",");
        append_field(&mut s, "bytes_in", self.bytes_in);
        s.append(",");
        append_field(&mut s, "bytes_dropped", self.bytes_dropped);
        s.append(",");
        append_field(&mut s, "bytes_exported", self.bytes_exported);
        s.append(",");
        append_field(&mut s, "redaction_count", self.redaction_count);
        s.append(",");
        append_field(&mut s, "failopen_count", self.failopen_count);
        s.append("}");
        s
    }
}

/// The live register: the window's counters and the next window's number.
#[derive(Debug)]
pub struct Metrics {
    counters: WindowCounters,
    /// Everything counted so far, over all windows.
    observed: WindowCounters,
    seq: u64,
    policy_version: u64,
}

impl Metrics {
    /// The counters of the open window.
    pub closed spec fn window(self) -> WindowCounters {
        self.counters
    }

    /// The counters over all windows so far.
    pub closed spec fn totals(self) -> WindowCounters {
        self.observed
    }

    /// The number of the open window.
    pub closed spec fn number(self) -> u64 {
        self.seq
    }

    /// The policy that windows are tagged with.
    pub closed spec fn version(self) -> u64 {
        self.policy_version
    }

    /// A register for a policy, with nothing counted.
    pub fn new(policy_version: u64) -> (m: Self)
        ensures
            m.window() == no_counts(),
            m.totals() == no_counts(),
            m.number() == 0,
            m.version() == policy_version,
    {
        Metrics {
            counters: WindowCounters::none(),
            observed: WindowCounters::none(),
            seq: 0,
            policy_version,
        }
    }

    /// Folds one request's outcome into the open window.
    pub fn record(&mut self, sample: &Sample)
        ensures
            final(self).window() == old(self).window().with(*sample),
            final(self).totals() == old(self).totals().with(*sample),
            final(self).number() == old(self).number(),
            final(self).version() == old(self).version(),
    {
        self.counters.record(sample);
        self.observed.record(sample);
    }

    /// Everything counted so far. Closing a window does not reset it.
    pub fn observed(&self) -> (c: WindowCounters)
        ensures
            c == self.totals(),
    {
        self.observed
    }

    /// Closes the open window and starts the next. A window without traffic
    /// yields zeros, so the series has no gap.
    pub fn flush(&mut self, window_start_ms: i64, window_end_ms: i64) -> (r: Aggregate)
        ensures
            r == aggregate_of(
                old(self).window(),
                old(self).number(),
                old(self).version(),
                window_start_ms,
                window_end_ms,
            ),
            final(self).window() == no_counts(),
            final(self).totals() == old(self).totals(),
            final(self).number() == sum64(old(self).number(), 1),
            final(self).version() == old(self).version(),
    {
        let d = self.counters.drain();
        let seq: u64 = self.seq;
        self.seq = add64(seq, 1);
        Aggregate {
            seq,
            window_start_ms,
            window_end_ms,
            policy_version: self.policy_version,
            events_in: d.events_in,
            events_sampled_out: d.events_sampled_out,
            events_exported: d.events_exported,
            bytes_in: d.bytes_in,
            bytes_dropped: d.bytes_dropped,
            bytes_exported: d.bytes_exported,
            redaction_count: d.redaction_count,
            failopen_count: d.failopen_count,
        }
    }
}

/// The closed window of some counters.
pub open spec fn aggregate_of(
    c: WindowCounters,
    seq: u64,
    policy_version: u64,
    window_start_ms: i64,
    window_end_ms: i64,
) -> Aggregate {
    Aggregate {
        seq,
        window_start_ms,
        window_end_ms,
        policy_version,
        events_in: c.events_in,
        events_sampled_out: c.events_sampled_out,
        events_exported: c.events_exported,
        bytes_in: c.bytes_in,
        bytes_dropped: c.bytes_dropped,
        bytes_exported: c.bytes_exported,
        redaction_count: c.redaction_count,
        failopen_count: c.failopen_count,
    }
}

/// The sum of one number over several requests.
pub open spec fn total(samples: Seq<Sample>, f: spec_fn(Sample) -> u64) -> nat
    decreases samples.len(),
{
    if samples.len() == 0 {
        0
    } else {
        total(samples.drop_last(), f) + f(samples.last()) as nat
    }
}

/// A sum in 64 bits.
#[verifier::opaque]
pub open spec fn total64(samples: Seq<Sample>, f: spec_fn(Sample) -> u64) -> u64 {
    (total(samples, f) % 0x1_0000_0000_0000_0000) as u64
}

/// One more request adds its number to a counter.
proof fn lemma_total_step(samples: Seq<Sample>, f: spec_fn(Sample) -> u64, c: u64)
    requires
        samples.len() > 0,
        c == total64(samples.drop_last(), f),
    ensures
        sum64(c, f(samples.last())) == total64(samples, f),
{
    reveal(sum64);
    reveal(total64);
}

/// No increment is lost: after any requests since the last flush, each counter
/// is the sum of its numbers over exactly those requests, in 64 bits.
pub proof fn law_windows_sum(samples: Seq<Sample>)
    ensures
        ({
            let c = no_counts().with_all(samples);
            &&& c.events_in == total64(samples, |s: Sample| s.events_in)
            &&& c.events_sampled_out == total64(samples, |s: Sample| s.events_sampled_out)
            &&& c.events_exported == total64(samples, |s: Sample| s.events_exported)
            &&& c.bytes_in == total64(samples, |s: Sample| s.bytes_in)
            &&& c.bytes_dropped == total64(samples, |s: Sample| s.saved())
            &&& c.bytes_exported == total64(samples, |s: Sample| s.bytes_exported)
            &&& c.redaction_count == total64(samples, |s: Sample| s.redaction_count)
            &&& c.failopen_count == total64(samples, |s: Sample| one_if(s.failed_open))
        }),
    decreases samples.len(),
{
    if samples.len() > 0 {
        law_windows_sum(samples.drop_last());
        let c = no_counts().with_all(samples.drop_last());
        lemma_total_step(samples, |s: Sample| s.events_in, c.events_in);
        lemma_total_step(samples, |s: Sample| s.events_sampled_out, c.events_sampled_out);
        lemma_total_step(samples, |s: Sample| s.events_exported, c.events_exported);
        lemma_total_step(samples, |s: Sample| s.bytes_in, c.bytes_in);
        lemma_total_step(samples, |s: Sample| s.saved(), c.bytes_dropped);
        lemma_total_step(samples, |s: Sample| s.bytes_exported, c.bytes_exported);
        lemma_total_step(samples, |s: Sample| s.redaction_count, c.redaction_count);
        lemma_total_step(samples, |s: Sample| one_if(s.failed_open), c.failopen_count);
    } else {
        reveal(total64);
    }
}

/// Records are conserved: where every request's records are either dropped or
/// exported, so are a window's.
pub proof fn law_records_are_conserved(samples: Seq<Sample>)
    requires
        forall|i: int|
            0 <= i < samples.len() ==> (#[trigger] samples[i]).events_in
                == samples[i].events_sampled_out + samples[i].events_exported,
    ensures
        total(samples, |s: Sample| s.events_in) == total(
            samples,
            |s: Sample| s.events_sampled_out,
        ) + total(samples, |s: Sample| s.events_exported),
    decreases samples.len(),
{
    if samples.len() > 0 {
        let rest = samples.drop_last();
        assert forall|i: int| 0 <= i < rest.len() implies (#[trigger] rest[i]).events_in
            == rest[i].events_sampled_out + rest[i].events_exported by {
            assert(rest[i] == samples[i]);
        }
        law_records_are_conserved(rest);
        assert(samples[samples.len() - 1].events_in == samples.last().events_in);
    }
}

/// A destination for closed windows. A failed delivery must not disturb the
/// telemetry: the driver reports it and goes on.
pub trait Sink {
    fn deliver(&self, aggregate: &Aggregate) -> Result<(), SinkError>;
}

/// Two numbers may be added in either order.
proof fn lemma_sum64_swaps(c: u64, a: u64, b: u64)
    ensures
        sum64(sum64(c, a), b) == sum64(sum64(c, b), a),
{
    reveal(sum64);
    let m: int = 0x1_0000_0000_0000_0000;
    vstd::arithmetic::div_mod::lemma_add_mod_noop_right(b as int, c + a, m);
    vstd::arithmetic::div_mod::lemma_add_mod_noop_right(a as int, c + b, m);
}

/// It does not matter which of two requests is recorded first.
pub proof fn law_recording_order_does_not_matter(c: WindowCounters, a: Sample, b: Sample)
    ensures
        c.with(a).with(b) == c.with(b).with(a),
{
    lemma_sum64_swaps(c.events_in, a.events_in, b.events_in);
    lemma_sum64_swaps(c.events_sampled_out, a.events_sampled_out, b.events_sampled_out);
    lemma_sum64_swaps(c.events_exported, a.events_exported, b.events_exported);
    lemma_sum64_swaps(c.bytes_in, a.bytes_in, b.bytes_in);
    lemma_sum64_swaps(c.bytes_dropped, a.saved(), b.saved());
    lemma_sum64_swaps(c.bytes_exported, a.bytes_exported, b.bytes_exported);
    lemma_sum64_swaps(c.redaction_count, a.redaction_count, b.redaction_count);
    lemma_sum64_swaps(c.failopen_count, one_if(a.failed_open), one_if(b.failed_open));
}

/// Why a window could not be delivered.
#[derive(Debug)]
pub enum SinkError {
    /// This build has no such sink.
    Unimplemented,
    /// A failure of the sink's own.
    Delivery(String),
}

/// The bounds of successive windows.
#[derive(Debug)]
pub struct FlushWindow {
    start_ms: i64,
}

impl FlushWindow {
    /// Where the open window starts.
    pub closed spec fn start(self) -> i64 {
        self.start_ms
    }

    /// Opens the first window.
    pub fn open(now_ms: i64) -> (w: Self)
        ensures
            w.start() == now_ms,
    {
        FlushWindow { start_ms: now_ms }
    }

    /// Closes the open window at a time; the next one starts there.
    pub fn close(&mut self, now_ms: i64) -> (r: (i64, i64))
        ensures
            r == (old(self).start(), now_ms),
            final(self).start() == now_ms,
    {
        let start: i64 = self.start_ms;
        self.start_ms = now_ms;
        (start, now_ms)
    }
}

/// Closes the open window of a register at a time, and opens the next.
pub fn close_window(metrics: &mut Metrics, window: &mut FlushWindow, now_ms: i64) -> (r: Aggregate)
    ensures
        r == aggregate_of(
            old(metrics).window(),
            old(metrics).number(),
            old(metrics).version(),
            old(window).start(),
            now_ms,
        ),
        final(metrics).window() == no_counts(),
        final(metrics).totals() == old(metrics).totals(),
        final(metrics).number() == sum64(old(metrics).number(), 1),
        final(metrics).version() == old(metrics).version(),
        final(window).start() == now_ms,
{
    let (start, end) = window.close(now_ms);
    metrics.flush(start, end)
}

/// What closing a window at each of several times yields, given what each
/// window has counted, where the first one opened at `start` under `number`.
pub open spec fn series(
    start: i64,
    number: u64,
    version: u64,
    closes: Seq<(WindowCounters, i64)>,
) -> Seq<Aggregate>
    decreases closes.len(),
{
    if closes.len() == 0 {
        Seq::empty()
    } else {
        let (counted, now) = closes[0];
        seq![aggregate_of(counted, number, version, start, now)] + series(
            now,
            sum64(number, 1),
            version,
            closes.drop_first(),
        )
    }
}

/// Windows follow each other without gap or overlap, under consecutive
/// numbers: every window is reported once, from where the one before it ended
/// up to when it was closed, with what was counted in it.
pub proof fn law_windows_are_consecutive(
    start: i64,
    number: u64,
    version: u64,
    closes: Seq<(WindowCounters, i64)>,
)
    ensures
        ({
            let reports = series(start, number, version, closes);
            &&& reports.len() == closes.len()
            &&& closes.len() > 0 ==> reports[0].window_start_ms == start
            &&& forall|i: int|
                0 <= i < closes.len() ==> #[trigger] reports[i] == aggregate_of(
                    closes[i].0,
                    ((number + i) % 0x1_0000_0000_0000_0000) as u64,
                    version,
                    if i == 0 {
                        start
                    } else {
                        reports[i - 1].window_end_ms
                    },
                    closes[i].1,
                )
        }),
    decreases closes.len(),
{
    reveal(sum64);
    if closes.len() > 0 {
        let now = closes[0].1;
        let next = sum64(number, 1);
        let rest = series(now, next, version, closes.drop_first());
        law_windows_are_consecutive(now, next, version, closes.drop_first());
        let reports = series(start, number, version, closes);
        assert forall|i: int| 0 <= i < closes.len() implies #[trigger] reports[i] == aggregate_of(
            closes[i].0,
            ((number + i) % 0x1_0000_0000_0000_0000) as u64,
            version,
            if i == 0 {
                start
            } else {
                reports[i - 1].window_end_ms
            },
            closes[i].1,
        ) by {
            if i > 0 {
                assert(reports[i] == rest[i - 1]);
                assert(closes.drop_first()[i - 1] == closes[i]);
                assert((next + (i - 1)) % 0x1_0000_0000_0000_0000 == (number + i)
                    % 0x1_0000_0000_0000_0000) by {
                    lemma_number_wraps(number, i);
                }
                if i > 1 {
                    assert(reports[i - 1] == rest[i - 2]);
                }
            }
        }
    }
}

/// Counting on from the next number is counting on by one more.
proof fn lemma_number_wraps(number: u64, i: int)
    requires
        i >= 1,
    ensures
        (sum64(number, 1) + (i - 1)) % 0x1_0000_0000_0000_0000 == (number + i)
            % 0x1_0000_0000_0000_0000,
{
    reveal(sum64);
    if number == u64::MAX {
        assert(number + i == (i - 1) + 0x1_0000_0000_0000_0000);
        vstd::arithmetic::div_mod::lemma_mod_add_multiples_vanish(
            i - 1,
            0x1_0000_0000_0000_0000,
        );
    }
}

/// What the loop that closes windows meets.
#[derive(Debug, Clone, Copy, PartialEq, Eq, Structural)]
pub enum FlushEvent {
    /// An interval has passed.
    Tick { now_ms: i64 },
    /// The agent shuts down.
    Shutdown { now_ms: i64 },
    /// A window was handed to the sink, which took it or failed.
    Delivered { taken: bool },
}

/// What the loop that closes windows does next.
#[derive(Debug, Clone, Copy, PartialEq, Eq, Structural)]
pub enum FlushAction {
    /// It waits for the next tick or for the shutdown.
    Await,
    /// It hands a closed window to the sink, once.
    Deliver(Aggregate),
    /// It ends.
    Stop,
}

/// Where the loop that closes windows stands.
#[derive(Debug, Clone, Copy, PartialEq, Eq, Structural)]
pub struct FlushState {
    /// Where the open window starts.
    pub start_ms: i64,
    /// Whether the last window has been closed.
    pub stopping: bool,
}

/// One step of the loop: where it stands then, the number of the next window,
/// and what it does.
pub open spec fn flush_step(
    state: FlushState,
    counted: WindowCounters,
    number: u64,
    version: u64,
    event: FlushEvent,
) -> (FlushState, u64, FlushAction) {
    match event {
        FlushEvent::Tick { now_ms } => (
            FlushState { start_ms: now_ms, ..state },
            sum64(number, 1),
            FlushAction::Deliver(aggregate_of(counted, number, version, state.start_ms, now_ms)),
        ),
        FlushEvent::Shutdown { now_ms } => (
            FlushState { start_ms: now_ms, stopping: true },
            sum64(number, 1),
            FlushAction::Deliver(aggregate_of(counted, number, version, state.start_ms, now_ms)),
        ),
        FlushEvent::Delivered { .. } => (
            state,
            number,
            if state.stopping {
                FlushAction::Stop
            } else {
                FlushAction::Await
            },
        ),
    }
}

/// The loop that closes windows: one at every tick, and the last one at
/// shutdown. Each is delivered once; a sink that fails changes nothing.
#[derive(Debug)]
pub struct FlushLoop {
    window: FlushWindow,
    stopping: bool,
}

impl FlushLoop {
    /// Where the loop stands.
    pub closed spec fn state(self) -> FlushState {
        FlushState { start_ms: self.window.start(), stopping: self.stopping }
    }

    /// Opens the first window.
    pub fn open(now_ms: i64) -> (l: Self)
        ensures
            l.state() == (FlushState { start_ms: now_ms, stopping: false }),
    {
        FlushLoop { window: FlushWindow::open(now_ms), stopping: false }
    }

    /// Meets an event, and says what to do next.
    pub fn step(&mut self, metrics: &mut Metrics, event: FlushEvent) -> (r: FlushAction)
        ensures
            (final(self).state(), final(metrics).number(), r) == flush_step(
                old(self).state(),
                old(metrics).window(),
                old(metrics).number(),
                old(metrics).version(),
                event,
            ),
            final(metrics).window() == (if event is Delivered {
                old(metrics).window()
            } else {
                no_counts()
            }),
            final(metrics).totals() == old(metrics).totals(),
            final(metrics).version() == old(metrics).version(),
    {
        match event {
            FlushEvent::Tick { now_ms } => FlushAction::Deliver(
                close_window(metrics, &mut self.window, now_ms),
            ),
            FlushEvent::Shutdown { now_ms } => {
                self.stopping = true;
                FlushAction::Deliver(close_window(metrics, &mut self.window, now_ms))
            },
            FlushEvent::Delivered { .. } => if self.stopping {
                FlushAction::Stop
            } else {
                FlushAction::Await
            },
        }
    }
}

/// What the loop does, event by event, given what the open window has counted
/// at each of them.
pub open spec fn flush_actions(
    state: FlushState,
    number: u64,
    version: u64,
    events: Seq<(WindowCounters, FlushEvent)>,
) -> Seq<FlushAction>
    decreases events.len(),
{
    if events.len() == 0 {
        Seq::empty()
    } else {
        let (next, next_number, action) = flush_step(
            state,
            events[0].0,
            number,
            version,
            events[0].1,
        );
        seq![action] + flush_actions(next, next_number, version, events.drop_first())
    }
}

/// A tick for each window but the last, which closes at shutdown; each
/// followed by what came of its delivery, and what the next window had counted
/// by then.
pub open spec fn flush_events(
    closes: Seq<(WindowCounters, i64)>,
    replies: Seq<(WindowCounters, bool)>,
) -> Seq<(WindowCounters, FlushEvent)>
    decreases closes.len(),
{
    if closes.len() == 0 {
        Seq::empty()
    } else {
        let (counted, now_ms) = closes[0];
        let close = if closes.len() == 1 {
            FlushEvent::Shutdown { now_ms }
        } else {
            FlushEvent::Tick { now_ms }
        };
        let (meanwhile, taken) = replies[0];
        seq![(counted, close), (meanwhile, FlushEvent::Delivered { taken })] + flush_events(
            closes.drop_first(),
            replies.drop_first(),
        )
    }
}

/// What the loop is to do: each window is delivered, and the loop goes on
/// behind all but the last, where it ends.
pub open spec fn deliveries(windows: Seq<Aggregate>) -> Seq<FlushAction>
    decreases windows.len(),
{
    if windows.len() == 0 {
        Seq::empty()
    } else {
        let behind = if windows.len() == 1 {
            FlushAction::Stop
        } else {
            FlushAction::Await
        };
        seq![FlushAction::Deliver(windows[0]), behind] + deliveries(windows.drop_first())
    }
}

/// Of any number of ticks and a shutdown, each closes one window, and each
/// window is delivered exactly once, the last partial one too. Whether the
/// sink takes a window or fails, nothing is delivered again and the loop goes
/// on; behind the last window it ends.
pub proof fn law_every_window_is_delivered_once(
    start: i64,
    number: u64,
    version: u64,
    closes: Seq<(WindowCounters, i64)>,
    replies: Seq<(WindowCounters, bool)>,
)
    requires
        closes.len() > 0,
        replies.len() == closes.len(),
    ensures
        series(start, number, version, closes).len() == closes.len(),
        flush_actions(
            FlushState { start_ms: start, stopping: false },
            number,
            version,
            flush_events(closes, replies),
        ) == deliveries(series(start, number, version, closes)),
    decreases closes.len(),
{
    let state = FlushState { start_ms: start, stopping: false };
    let events = flush_events(closes, replies);
    let windows = series(start, number, version, closes);
    let (counted, now) = closes[0];
    let next = sum64(number, 1);
    let rest = flush_events(closes.drop_first(), replies.drop_first());
    let others = series(now, next, version, closes.drop_first());
    law_windows_are_consecutive(start, number, version, closes);
    law_windows_are_consecutive(now, next, version, closes.drop_first());
    assert(events.drop_first().drop_first() =~= rest);
    assert(windows.drop_first() =~= others);
    assert(events.drop_first()[0] == events[1]);
    let after = FlushState { start_ms: now, stopping: closes.len() == 1 };
    let behind = if closes.len() == 1 {
        FlushAction::Stop
    } else {
        FlushAction::Await
    };
    assert(flush_actions(after, next, version, events.drop_first()) =~= seq![behind]
        + flush_actions(after, next, version, rest));
    assert(flush_actions(state, number, version, events) =~= seq![
        FlushAction::Deliver(windows[0]),
        behind,
    ] + flush_actions(after, next, version, rest));
    assert(deliveries(windows) == seq![FlushAction::Deliver(windows[0]), behind] + deliveries(
        others,
    ));
    if closes.len() == 1 {
        assert(rest =~= Seq::empty());
        assert(others =~= Seq::empty());
    } else {
        law_every_window_is_delivered_once(
            now,
            next,
            version,
            closes.drop_first(),
            replies.drop_first(),
        );
    }
}

/// What a request saves: the bytes that do not leave, and nothing where it
/// grew.
pub proof fn law_savings_are_the_difference(s: Sample)
    ensures
        s.bytes_in >= s.bytes_exported ==> s.saved() + s.bytes_exported == s.bytes_in,
        s.bytes_in < s.bytes_exported ==> s.saved() == 0,
{
}

/// One request adds its numbers to the counters, and one to the failures where
/// it failed open.
pub proof fn law_a_request_adds_its_numbers(c: WindowCounters, s: Sample)
    ensures
        c.with(s).events_in == (c.events_in + s.events_in) % 0x1_0000_0000_0000_0000,
        c.with(s).events_sampled_out == (c.events_sampled_out + s.events_sampled_out)
            % 0x1_0000_0000_0000_0000,
        c.with(s).events_exported == (c.events_exported + s.events_exported)
            % 0x1_0000_0000_0000_0000,
        c.with(s).bytes_in == (c.bytes_in + s.bytes_in) % 0x1_0000_0000_0000_0000,
        s.bytes_in >= s.bytes_exported ==> c.with(s).bytes_dropped == (c.bytes_dropped + (s.bytes_in
            - s.bytes_exported)) % 0x1_0000_0000_0000_0000,
        c.with(s).bytes_exported == (c.bytes_exported + s.bytes_exported) % 0x1_0000_0000_0000_0000,
        c.with(s).redaction_count == (c.redaction_count + s.redaction_count)
            % 0x1_0000_0000_0000_0000,
        s.failed_open ==> c.with(s).failopen_count == (c.failopen_count + 1)
            % 0x1_0000_0000_0000_0000,
        !s.failed_open ==> c.with(s).failopen_count == c.failopen_count,
{
    reveal(sum64);
}

/// A closed window reports every counter as it stood, under its number, its
/// policy and its bounds.
pub proof fn law_windows_report_their_counters(
    c: WindowCounters,
    seq: u64,
    policy_version: u64,
    start: i64,
    end: i64,
)
    ensures
        ({
            let a = aggregate_of(c, seq, policy_version, start, end);
            &&& a.seq == seq
            &&& a.policy_version == policy_version
            &&& a.window_start_ms == start
            &&& a.window_end_ms == end
            &&& a.events_in == c.events_in
            &&& a.events_sampled_out == c.events_sampled_out
            &&& a.events_exported == c.events_exported
            &&& a.bytes_in == c.bytes_in
            &&& a.bytes_dropped == c.bytes_dropped
            &&& a.bytes_exported == c.bytes_exported
            &&& a.redaction_count == c.redaction_count
            &&& a.failopen_count == c.failopen_count
        }),
{
}

/// Whether a text stands somewhere in another.
pub open spec fn has_part(s: Seq<char>, part: Seq<char>) -> bool {
    exists|before: Seq<char>, behind: Seq<char>| s == #[trigger] (before + part + behind)
}

/// Every counter is served on a line of its own, by its name and in decimal.
pub proof fn law_every_counter_has_its_line(c: WindowCounters)
    ensures
        has_part(c.text(), "archiv_events_in"@ + " "@ + text::decimal(c.events_in as nat) + "\n"@),
        has_part(c.text(), "archiv_events_sampled_out"@ + " "@
            + text::decimal(c.events_sampled_out as nat) + "\n"@),
        has_part(c.text(), "archiv_events_exported"@ + " "@
            + text::decimal(c.events_exported as nat) + "\n"@),
        has_part(c.text(), "archiv_bytes_in"@ + " "@ + text::decimal(c.bytes_in as nat) + "\n"@),
        has_part(c.text(), "archiv_bytes_dropped"@ + " "@ + text::decimal(c.bytes_dropped as nat)
            + "\n"@),
        has_part(c.text(), "archiv_bytes_exported"@ + " "@
            + text::decimal(c.bytes_exported as nat) + "\n"@),
        has_part(c.text(), "archiv_redactions"@ + " "@ + text::decimal(c.redaction_count as nat)
            + "\n"@),
        has_part(c.text(), "archiv_failopen"@ + " "@ + text::decimal(c.failopen_count as nat)
            + "\n"@),
{
    let lines = seq![
        counter_line("archiv_events_in"@, c.events_in),
        counter_line("archiv_events_sampled_out"@, c.events_sampled_out),
        counter_line("archiv_events_exported"@, c.events_exported),
        counter_line("archiv_bytes_in"@, c.bytes_in),
        counter_line("archiv_bytes_dropped"@, c.bytes_dropped),
        counter_line("archiv_bytes_exported"@, c.bytes_exported),
        counter_line("archiv_redactions"@, c.redaction_count),
        counter_line("archiv_failopen"@, c.failopen_count),
    ];
    assert(c.text() =~= (Seq::<char>::empty()) + lines[0] + (lines[1] + lines[2] + lines[3]
        + lines[4] + lines[5] + lines[6] + lines[7]));
    assert(has_part(c.text(), lines[0]));
    assert(c.text() =~= (lines[0]) + lines[1] + (lines[2] + lines[3] + lines[4] + lines[5]
        + lines[6] + lines[7]));
    assert(has_part(c.text(), lines[1]));
    assert(c.text() =~= (lines[0] + lines[1]) + lines[2] + (lines[3] + lines[4] + lines[5]
        + lines[6] + lines[7]));
    assert(has_part(c.text(), lines[2]));
    assert(c.text() =~= (lines[0] + lines[1] + lines[2]) + lines[3] + (lines[4] + lines[5]
        + lines[6] + lines[7]));
    assert(has_part(c.text(), lines[3]));
    assert(c.text() =~= (lines[0] + lines[1] + lines[2] + lines[3]) + lines[4] + (lines[5]
        + lines[6] + lines[7]));
    assert(has_part(c.text(), lines[4]));
    assert(c.text() =~= (lines[0] + lines[1] + lines[2] + lines[3] + lines[4]) + lines[5]
        + (lines[6] + lines[7]));
    assert(has_part(c.text(), lines[5]));
    assert(c.text() =~= (lines[0] + lines[1] + lines[2] + lines[3] + lines[4] + lines[5])
        + lines[6] + (lines[7]));
    assert(has_part(c.text(), lines[6]));
    assert(c.text() =~= (lines[0] + lines[1] + lines[2] + lines[3] + lines[4] + lines[5]
        + lines[6]) + lines[7] + (Seq::<char>::empty()));
    assert(has_part(c.text(), lines[7]));
}

/// A negative number has a minus in front of its digits, any other only its
/// digits.
pub proof fn law_signs_are_written(n: nat)
    ensures
        n > 0 ==> signed_decimal(-(n as int)) == seq!['-'] + text::decimal(n),
        signed_decimal(n as int) == text::decimal(n),
{
    reveal_strlit("-");
    assert("-"@ =~= seq!['-']);
}

/// What stands in a text stands in a longer one.
proof fn lemma_parts_stay(x: Seq<char>, y: Seq<char>)
    ensures
        forall|part: Seq<char>| #[trigger] has_part(x, part) ==> has_part(x + y, part),
        has_part(x + y, y),
{
    assert forall|part: Seq<char>| #[trigger] has_part(x, part) implies has_part(x + y, part) by {
        let (before, behind) = choose|before: Seq<char>, behind: Seq<char>|
            x == #[trigger] (before + part + behind);
        assert(x + y =~= before + part + (behind + y));
    }
    assert(x + y =~= x + y + Seq::<char>::empty());
}

/// Every number of a window is in its JSON, under its name.
pub proof fn law_every_number_is_in_the_json(a: Aggregate)
    ensures
        has_part(a.json(), json_field("seq"@, a.seq as int)),
        has_part(a.json(), json_field("window_start_ms"@, a.window_start_ms as int)),
        has_part(a.json(), json_field("window_end_ms"@, a.window_end_ms as int)),
        has_part(a.json(), json_field("policy_version"@, a.policy_version as int)),
        has_part(a.json(), json_field("events_in"@, a.events_in as int)),
        has_part(a.json(), json_field("events_sampled_out"@, a.events_sampled_out as int)),
        has_part(a.json(), json_field("events_exported"@, a.events_exported as int)),
        has_part(a.json(), json_field("bytes_in"@, a.bytes_in as int)),
        has_part(a.json(), json_field("bytes_dropped"@, a.bytes_dropped as int)),
        has_part(a.json(), json_field("bytes_exported"@, a.bytes_exported as int)),
        has_part(a.json(), json_field("redaction_count"@, a.redaction_count as int)),
        has_part(a.json(), json_field("failopen_count"@, a.failopen_count as int)),
{
    let t = "{"@;
    let f = json_field("seq"@, a.seq as int);
    lemma_parts_stay(t, f);
    let t = t + f;
    lemma_parts_stay(t, ","@);
    let t = t + ","@;
    let f = json_field("window_start_ms"@, a.window_start_ms as int);
    lemma_parts_stay(t, f);
    let t = t + f;
    lemma_parts_stay(t, ","@);
    let t = t + ","@;
    let f = json_field("window_end_ms"@, a.window_end_ms as int);
    lemma_parts_stay(t, f);
    let t = t + f;
    lemma_parts_stay(t, ","@);
    let t = t + ","@;
    let f = json_field("policy_version"@, a.policy_version as int);
    lemma_parts_stay(t, f);
    let t = t + f;
    lemma_parts_stay(t, ","@);
    let t = t + ","@;
    let f = json_field("events_in"@, a.events_in as int);
    lemma_parts_stay(t, f);
    let t = t + f;
    lemma_parts_stay(t, ","@);
    let t = t + ","@;
    let f = json_field("events_sampled_out"@, a.events_sampled_out as int);
    lemma_parts_stay(t, f);
    let t = t + f;
    lemma_parts_stay(t, ","@);
    let t = t + ","@;
    let f = json_field("events_exported"@, a.events_exported as int);
    lemma_parts_stay(t, f);
    let t = t + f;
    lemma_parts_stay(t, ","@);
    let t = t + ","@;
    let f = json_field("bytes_in"@, a.bytes_in as int);
    lemma_parts_stay(t, f);
    let t = t + f;
    lemma_parts_stay(t, ","@);
    let t = t + ","@;
    let f = json_field("bytes_dropped"@, a.bytes_dropped as int);
    lemma_parts_stay(t, f);
    let t = t + f;
    lemma_parts_stay(t, ","@);
    let t = t + ","@;
    let f = json_field("bytes_exported"@, a.bytes_exported as int);
    lemma_parts_stay(t, f);
    let t = t + f;
    lemma_parts_stay(t, ","@);
    let t = t + ","@;
    let f = json_field("redaction_count"@, a.redaction_count as int);
    lemma_parts_stay(t, f);
    let t = t + f;
    lemma_parts_stay(t, ","@);
    let t = t + ","@;
    let f = json_field("failopen_count"@, a.failopen_count as int);
    lemma_parts_stay(t, f);
    let t = t + f;
    lemma_parts_stay(t, "}"@);
    let t = t + "}"@;
    assert(t == a.json());
}

/// A member of a JSON object: its name in quotes, a colon, its number.
pub proof fn law_members_are_named(name: Seq<char>, n: int)
    ensures
        json_field(name, n) == seq!['"'] + name + seq!['"', ':'] + signed_decimal(n),
{
    reveal_strlit("\"");
    reveal_strlit("\":");
    assert("\""@ =~= seq!['"']);
    assert("\":"@ =~= seq!['"', ':']);
}

} // verus!
