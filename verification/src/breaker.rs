//! A circuit breaker for one pipeline stage.
//!
//! After `threshold` faults within `window` it opens for `cooldown`. The
//! window rolls: what counts is how many faults lie within `window` before the
//! latest one. While the breaker is open the stage is skipped, which keeps the
//! pipeline exporting; then it closes again on the next call. Time is passed
//! in.

use crate::clock;
use core::time::Duration;
use std::time::Instant;
use vstd::prelude::*;

verus! {

/// A rolling-window fault breaker.
pub struct CircuitBreaker {
    threshold: u32,
    window: Duration,
    cooldown: Duration,
    /// When the faults came that may still count, in the order they came.
    faults: Vec<Instant>,
    opened_at: Option<Instant>,
}

/// A breaker in plain numbers; times are in nanoseconds.
#[verifier::ext_equal]
pub struct BreakerState {
    pub threshold: u32,
    pub window: u128,
    pub cooldown: u128,
    pub faults: Seq<int>,
    pub opened_at: Option<int>,
}

/// The times of several instants.
pub open spec fn times_of(instants: Seq<Instant>) -> Seq<int> {
    instants.map_values(|t: Instant| clock::time_of(t))
}

/// The times that lie within `window` before `now`, in their order.
pub open spec fn recent(times: Seq<int>, now: int, window: u128) -> Seq<int>
    decreases times.len(),
{
    if times.len() == 0 {
        times
    } else if clock::elapsed(now, times.last()) <= window {
        recent(times.drop_last(), now, window).push(times.last())
    } else {
        recent(times.drop_last(), now, window)
    }
}

impl View for CircuitBreaker {
    type V = BreakerState;

    closed spec fn view(&self) -> BreakerState {
        BreakerState {
            threshold: self.threshold,
            window: clock::nanos_of(self.window),
            cooldown: clock::nanos_of(self.cooldown),
            faults: times_of(self.faults@),
            opened_at: match self.opened_at {
                Some(t) => Some(clock::time_of(t)),
                None => None,
            },
        }
    }
}

impl BreakerState {
    /// A closed breaker that has seen no fault. A threshold of zero counts as
    /// one.
    pub open spec fn fresh(threshold: u32, window: u128, cooldown: u128) -> BreakerState {
        BreakerState {
            threshold: if threshold > 0 {
                threshold
            } else {
                1
            },
            window,
            cooldown,
            faults: Seq::empty(),
            opened_at: None,
        }
    }

    /// Whether the breaker holds the stage back at a time: it is open, and the
    /// cooldown has not passed.
    pub open spec fn blocks(self, now: int) -> bool {
        self.opened_at matches Some(t) && clock::elapsed(now, t) < self.cooldown
    }

    /// The breaker after it was asked at a time: once the cooldown has passed
    /// it is closed, and no fault counts any more.
    pub open spec fn asked(self, now: int) -> BreakerState {
        if self.opened_at is Some && !self.blocks(now) {
            BreakerState { opened_at: None, faults: Seq::empty(), ..self }
        } else {
            self
        }
    }

    /// The faults that count after one more at a time, this one included.
    pub open spec fn faults_after(self, now: int) -> Seq<int> {
        recent(self.faults, now, self.window).push(now)
    }

    /// Whether one more fault at a time opens the breaker.
    pub open spec fn trips(self, now: int) -> bool {
        self.opened_at is None && self.faults_after(now).len() >= self.threshold
    }

    /// The breaker after one more fault at a time.
    pub open spec fn faulted(self, now: int) -> BreakerState {
        BreakerState {
            faults: self.faults_after(now),
            opened_at: if self.trips(now) {
                Some(now)
            } else {
                self.opened_at
            },
            ..self
        }
    }

    /// The breaker after several faults, each at its time.
    pub open spec fn faulted_all(self, times: Seq<int>) -> BreakerState
        decreases times.len(),
    {
        if times.len() == 0 {
            self
        } else {
            self.faulted_all(times.drop_last()).faulted(times.last())
        }
    }
}

impl CircuitBreaker {
    /// A closed breaker. A threshold of zero counts as one.
    pub fn new(threshold: u32, window: Duration, cooldown: Duration) -> (b: Self)
        ensures
            b@ == BreakerState::fresh(
                threshold,
                clock::nanos_of(window),
                clock::nanos_of(cooldown),
            ),
    {
        Self {
            threshold: if threshold > 0 {
                threshold
            } else {
                1
            },
            window,
            cooldown,
            faults: Vec::new(),
            opened_at: None,
        }
    }

    /// Five faults in 10 s open it for 30 s.
    pub fn with_defaults() -> (b: Self)
        ensures
            b@ == BreakerState::fresh(5, 10_000_000_000, 30_000_000_000),
    {
        Self::new(5, Duration::from_secs(10), Duration::from_secs(30))
    }

    /// Whether the guarded stage should run at `now`. Once the cooldown has
    /// passed, an open breaker closes and allows a trial run.
    pub fn allow_at(&mut self, now: Instant) -> (r: bool)
        ensures
            r == !old(self)@.blocks(clock::time_of(now)),
            final(self)@ == old(self)@.asked(clock::time_of(now)),
    {
        if let Some(opened) = self.opened_at {
            if now.saturating_duration_since(opened).as_nanos() < self.cooldown.as_nanos() {
                return false;
            }
            self.opened_at = None;
            self.faults = Vec::new();
        }
        true
    }

    /// Record one stage fault at `now`. True exactly where this fault opened
    /// the breaker.
    pub fn record_fault_at(&mut self, now: Instant) -> (r: bool)
        ensures
            r == old(self)@.trips(clock::time_of(now)),
            final(self)@ == old(self)@.faulted(clock::time_of(now)),
    {
        let ghost all = times_of(self.faults@);
        let ghost at = clock::time_of(now);
        let ghost window = clock::nanos_of(self.window);
        let mut kept: Vec<Instant> = Vec::new();
        let mut i: usize = 0;
        while i < self.faults.len()
            invariant
                i <= self.faults@.len(),
                *self == *old(self),
                all == times_of(self.faults@),
                at == clock::time_of(now),
                window == clock::nanos_of(self.window),
                times_of(kept@) == recent(all.take(i as int), at, window),
            decreases self.faults@.len() - i,
        {
            let t: Instant = self.faults[i];
            proof {
                assert(all.take(i + 1).drop_last() =~= all.take(i as int));
                assert(all.take(i + 1).last() == clock::time_of(t));
                assert(times_of(kept@.push(t)) =~= times_of(kept@).push(clock::time_of(t)));
            }
            if now.saturating_duration_since(t).as_nanos() <= self.window.as_nanos() {
                kept.push(t);
            }
            i = i + 1;
        }
        proof {
            assert(all.take(i as int) =~= all);
            assert(times_of(kept@.push(now)) =~= times_of(kept@).push(at));
        }
        kept.push(now);
        let enough: bool = kept.len() as u64 >= self.threshold as u64;
        self.faults = kept;
        if enough && self.opened_at.is_none() {
            self.opened_at = Some(now);
            return true;
        }
        false
    }
}

/// Whether times never go back.
pub open spec fn in_order(times: Seq<int>) -> bool {
    forall|i: int, j: int| 0 <= i <= j < times.len() ==> times[i] <= times[j]
}

/// Whether some `n` successive times lie within one `window`.
pub open spec fn crowded(times: Seq<int>, n: u32, window: u128) -> bool {
    exists|i: int|
        0 <= i && i + n <= times.len() && clock::elapsed(times[i + n - 1], #[trigger] times[i])
            <= window
}

/// Of times in order, those that lie in the window are the last ones.
proof fn lemma_recent_is_suffix(times: Seq<int>, now: int, window: u128) -> (k: int)
    requires
        in_order(times),
    ensures
        0 <= k <= times.len(),
        recent(times, now, window) == times.skip(k),
        forall|j: int| 0 <= j < k ==> clock::elapsed(now, #[trigger] times[j]) > window,
        forall|j: int| k <= j < times.len() ==> clock::elapsed(now, #[trigger] times[j]) <= window,
    decreases times.len(),
{
    if times.len() == 0 {
        assert(times.skip(0) =~= times);
        0
    } else {
        let n = times.len() - 1;
        let k = lemma_recent_is_suffix(times.drop_last(), now, window);
        assert forall|j: int| 0 <= j < n implies times.drop_last()[j] == times[j] by {}
        if clock::elapsed(now, times.last()) <= window {
            assert(times.drop_last().skip(k).push(times.last()) =~= times.skip(k));
            assert forall|j: int| 0 <= j < k implies clock::elapsed(now, #[trigger] times[j])
                > window by {
                assert(clock::elapsed(now, times.drop_last()[j]) > window);
            }
            assert forall|j: int| k <= j < times.len() implies clock::elapsed(
                now,
                #[trigger] times[j],
            ) <= window by {
                if j < n {
                    assert(clock::elapsed(now, times.drop_last()[j]) <= window);
                }
            }
            k
        } else {
            assert forall|j: int| 0 <= j < times.len() implies clock::elapsed(
                now,
                #[trigger] times[j],
            ) > window by {
                assert(times[j] <= times[n]);
            }
            if k < n {
                assert(clock::elapsed(now, times.drop_last()[k]) <= window);
                assert(times[k] == times.drop_last()[k]);
            }
            assert(times.drop_last().skip(k) =~= times.skip(times.len() as int));
            times.len() as int
        }
    }
}

/// What counts after several faults: those that lie in the window before the
/// last one.
proof fn lemma_faults_kept(b: BreakerState, times: Seq<int>)
    requires
        b.faults.len() == 0,
        in_order(times),
    ensures
        times.len() > 0 ==> b.faulted_all(times).faults == recent(times, times.last(), b.window),
        b.faulted_all(times).threshold == b.threshold,
        b.faulted_all(times).window == b.window,
    decreases times.len(),
{
    if times.len() > 0 {
        let rest = times.drop_last();
        let now = times.last();
        lemma_faults_kept(b, rest);
        if rest.len() > 0 {
            assert forall|i: int, j: int| 0 <= i <= j < rest.len() implies rest[i] <= rest[j] by {
                assert(times[i] <= times[j]);
            }
            let k = lemma_recent_is_suffix(rest, rest.last(), b.window);
            let kept = rest.skip(k);
            let m = lemma_recent_is_suffix(kept, now, b.window);
            let n = lemma_recent_is_suffix(rest, now, b.window);
            assert(times[rest.len() - 1] <= times[rest.len() as int]);
            // What lies outside the earlier window lies outside the later one.
            assert(n == k + m) by {
                if n < k {
                    assert(clock::elapsed(rest.last(), rest[n]) > b.window);
                    assert(clock::elapsed(now, rest[n]) <= b.window);
                } else if n < k + m {
                    assert(clock::elapsed(now, kept[n - k]) > b.window);
                    assert(kept[n - k] == rest[n]);
                } else if n > k + m {
                    assert(clock::elapsed(now, rest[k + m]) > b.window);
                    assert(kept[m] == rest[k + m]);
                }
            }
            assert(kept.skip(m) =~= rest.skip(n));
        } else {
            assert(b.faults =~= rest);
        }
    }
}

/// The rolling window: of a closed breaker that has seen no fault, faults at
/// times in order open it exactly where `threshold` of them lie within one
/// window. Fewer never do.
pub proof fn law_opens_on_threshold_within_window(b: BreakerState, times: Seq<int>)
    requires
        b.threshold >= 1,
        b.faults.len() == 0,
        b.opened_at is None,
        in_order(times),
    ensures
        b.faulted_all(times).opened_at is Some <==> crowded(times, b.threshold, b.window),
    decreases times.len(),
{
    let n = b.threshold;
    if times.len() > 0 {
        let rest = times.drop_last();
        let now = times.last();
        assert forall|i: int, j: int| 0 <= i <= j < rest.len() implies rest[i] <= rest[j] by {
            assert(times[i] <= times[j]);
        }
        law_opens_on_threshold_within_window(b, rest);
        lemma_faults_kept(b, rest);
        lemma_faults_kept(b, times);
        let k = lemma_recent_is_suffix(times, now, b.window);
        let before = b.faulted_all(rest);
        if before.opened_at is Some {
            let i = choose|i: int|
                0 <= i && i + n <= rest.len() && clock::elapsed(
                    rest[i + n - 1],
                    #[trigger] rest[i],
                ) <= b.window;
            assert(rest[i] == times[i] && rest[i + n - 1] == times[i + n - 1]);
            assert(crowded(times, n, b.window));
        } else {
            assert(b.faulted_all(times).faults.len() == times.len() - k);
            if before.trips(now) {
                let i = times.len() - n;
                assert(clock::elapsed(now, times[i]) <= b.window);
                assert(crowded(times, n, b.window));
            } else if crowded(times, n, b.window) {
                let i = choose|i: int|
                    0 <= i && i + n <= times.len() && clock::elapsed(
                        times[i + n - 1],
                        #[trigger] times[i],
                    ) <= b.window;
                if i + n <= rest.len() {
                    assert(rest[i] == times[i] && rest[i + n - 1] == times[i + n - 1]);
                    assert(crowded(rest, n, b.window));
                } else {
                    assert(i >= k);
                }
            }
        }
    }
}

/// Faults that the window has left behind do not count: where all of them have
/// been, the next one counts alone.
pub proof fn law_old_faults_do_not_count(b: BreakerState, now: int)
    requires
        forall|i: int|
            0 <= i < b.faults.len() ==> clock::elapsed(now, #[trigger] b.faults[i]) > b.window,
    ensures
        b.faulted(now).faults == seq![now],
        b.threshold >= 2 ==> !b.trips(now),
{
    lemma_none_recent(b.faults, now, b.window);
}

proof fn lemma_none_recent(times: Seq<int>, now: int, window: u128)
    requires
        forall|i: int| 0 <= i < times.len() ==> clock::elapsed(now, #[trigger] times[i]) > window,
    ensures
        recent(times, now, window) == Seq::<int>::empty(),
    decreases times.len(),
{
    if times.len() > 0 {
        assert(clock::elapsed(now, times[times.len() - 1]) > window);
        assert forall|i: int| 0 <= i < times.drop_last().len() implies clock::elapsed(
            now,
            #[trigger] times.drop_last()[i],
        ) > window by {
            assert(clock::elapsed(now, times[i]) > window);
        }
        lemma_none_recent(times.drop_last(), now, window);
    }
}

/// While the breaker is open no further fault is reported as opening it.
pub proof fn law_opening_is_told_once(b: BreakerState, first: int, second: int)
    requires
        b.trips(first),
    ensures
        b.faulted(first).opened_at == Some(first),
        !b.faulted(first).trips(second),
        b.faulted(first).faulted(second).opened_at == Some(first),
{
}

/// An open breaker blocks until the cooldown has passed; then it is closed,
/// with no fault counted.
pub proof fn law_closes_after_cooldown(b: BreakerState, opened: int, now: int)
    requires
        b.opened_at == Some(opened),
    ensures
        b.blocks(now) <==> clock::elapsed(now, opened) < b.cooldown,
        !b.blocks(now) ==> b.asked(now).opened_at is None && b.asked(now).faults.len() == 0,
{
}

/// A new breaker is closed and has seen no fault; it opens on the first fault
/// where no threshold was given. A closed breaker holds nothing back, and
/// asking it, or asking an open one before its cooldown has passed, changes
/// nothing.
pub proof fn law_only_the_cooldown_changes_a_breaker(
    b: BreakerState,
    now: int,
    threshold: u32,
    window: u128,
    cooldown: u128,
)
    ensures
        ({
            let new = BreakerState::fresh(threshold, window, cooldown);
            &&& new.opened_at is None
            &&& new.faults.len() == 0
            &&& new.window == window
            &&& new.cooldown == cooldown
            &&& threshold > 0 ==> new.threshold == threshold
            &&& threshold == 0 ==> new.threshold == 1
            &&& !new.blocks(now)
        }),
        b.opened_at is None ==> !b.blocks(now) && b.asked(now) == b,
        b.opened_at matches Some(t) ==> (now < t + b.cooldown && b.cooldown > 0 ==> b.blocks(now)
            && b.asked(now) == b),
        b.opened_at matches Some(t) ==> (now >= t + b.cooldown && now >= t ==> !b.blocks(now)
            && b.asked(now).opened_at is None && b.asked(now).faults.len() == 0
            && b.asked(now).threshold == b.threshold && b.asked(now).window == b.window
            && b.asked(now).cooldown == b.cooldown),
{
}

/// Every fault in the window counts and no other: where `n` of the faults so
/// far lie at most `window` before a new one, `n + 1` count with it, and the
/// breaker opens, if it was closed, exactly where these reach the threshold.
pub proof fn law_faults_in_the_window_count(b: BreakerState, now: int)
    requires
        forall|i: int| 0 <= i < b.faults.len() ==> #[trigger] b.faults[i] <= now,
    ensures
        ({
            let n = b.faults.filter(|t: int| now - t <= b.window).len();
            &&& b.faulted(now).faults.len() == n + 1
            &&& b.faulted(now).faults.last() == now
            &&& b.trips(now) <==> b.opened_at is None && n + 1 >= b.threshold
            &&& b.opened_at is None && n + 1 >= b.threshold ==> b.faulted(now).opened_at == Some(
                now,
            )
            &&& b.opened_at is None && n + 1 < b.threshold ==> b.faulted(now).opened_at is None
            &&& b.faulted(now).threshold == b.threshold
            &&& b.faulted(now).window == b.window
            &&& b.faulted(now).cooldown == b.cooldown
        }),
{
    lemma_recent_is_a_filter(b.faults, now, b.window);
}

proof fn lemma_recent_is_a_filter(times: Seq<int>, now: int, window: u128)
    requires
        forall|i: int| 0 <= i < times.len() ==> #[trigger] times[i] <= now,
    ensures
        recent(times, now, window) == times.filter(|t: int| now - t <= window),
    decreases times.len(),
{
    reveal(Seq::filter);
    if times.len() > 0 {
        assert(times[times.len() - 1] <= now);
        assert forall|i: int| 0 <= i < times.drop_last().len() implies #[trigger] times.drop_last()[i]
            <= now by {
            assert(times[i] <= now);
        }
        lemma_recent_is_a_filter(times.drop_last(), now, window);
    }
}

} // verus!
