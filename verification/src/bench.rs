//! Simple benchmarking helpers: a one-shot stopwatch, and a benchmarker
//! that sums a window of samples before reporting.
//!
//! Clock readings are opaque, but the duration arithmetic is pure, so its
//! results carry names (`dur_add_of`, `dur_div_of`) that the contracts
//! speak through: `stop` reports after exactly `window` further samples,
//! and what it reports is the window's summed samples divided by their
//! count.  The samples of the open window are kept as a ghost sequence.

use vstd::prelude::*;

verus! {

#[verifier::external_type_specification]
#[verifier::external_body]
pub struct ExInstant(std::time::Instant);

/// What adding two durations yields.  The sum saturates only at the
/// longest representable duration, about half a million years of
/// nanoseconds, so no claim beyond purity is needed here.
pub uninterp spec fn dur_add_of(a: std::time::Duration, b: std::time::Duration) -> std::time::Duration;

/// What dividing a duration by a count yields.
pub uninterp spec fn dur_div_of(d: std::time::Duration, n: u32) -> std::time::Duration;

/// The sum of a batch of samples, added up left to right.
pub open spec fn sum_of(samples: Seq<std::time::Duration>) -> std::time::Duration
    recommends
        samples.len() > 0,
    decreases samples.len(),
{
    if samples.len() <= 1 {
        samples[0]
    } else {
        dur_add_of(sum_of(samples.drop_last()), samples.last())
    }
}

/// Relies on `std::time::Instant::now`: an opaque reading of the
/// monotonic clock.
#[verifier::external_body]
fn instant_now() -> std::time::Instant {
    std::time::Instant::now()
}

/// Relies on `Instant::saturating_duration_since`: the time elapsed from
/// `earlier` to `later`, zero if `earlier` is the later one; never panics.
/// The value depends on the clock, so nothing more is stated.
#[verifier::external_body]
fn elapsed_between(later: &std::time::Instant, earlier: &std::time::Instant) -> std::time::Duration {
    later.saturating_duration_since(*earlier)
}

/// Relies on `Duration::saturating_add`: the sum of two durations, a pure
/// function of the two, capped at the longest representable duration;
/// never panics.
#[verifier::external_body]
fn duration_add(a: std::time::Duration, b: std::time::Duration) -> (r: std::time::Duration)
    ensures
        r == dur_add_of(a, b),
{
    a.saturating_add(b)
}

/// Relies on `Duration::div`, a pure function of duration and divisor; it
/// panics only when the divisor is zero, which the contract keeps out.
#[verifier::external_body]
fn duration_div(d: std::time::Duration, n: u32) -> (r: std::time::Duration)
    requires
        n != 0,
    ensures
        r == dur_div_of(d, n),
{
    d / n
}

/// Relies on `Duration::default`: the zero-length duration.  It seeds the
/// sum field of a fresh benchmarker, whose value is never read before a
/// first sample overwrites it, so no name is needed.
#[verifier::external_body]
fn duration_zero() -> std::time::Duration {
    std::time::Duration::default()
}

/// Runs `timer` once and hands the time it took to `reporter`.
pub fn stopwatch<T: FnOnce(), R: FnOnce(std::time::Duration)>(timer: T, reporter: R)
    requires
        call_requires(timer, ()),
        forall|d: std::time::Duration| #[trigger] call_requires(reporter, (d,)),
    ensures
        call_ensures(timer, (), ()),
        exists|d: std::time::Duration| #[trigger] call_ensures(reporter, (d,), ()),
{
    let before = instant_now();
    timer();
    let after = instant_now();
    reporter(elapsed_between(&after, &before));
}

/// Sums repeated samples: every `window` + 1 calls of `start`/`stop`, the
/// mean of the summed samples is reported and the window starts over.
///
/// A window of zero reports on every sample, so that the no-buffering case
/// still yields one sample per report.
pub struct Benchmarker {
    pub last: std::time::Instant,
    pub sum: std::time::Duration,
    pub samples: Ghost<Seq<std::time::Duration>>,
    pub count: usize,
    pub window: usize,
}

impl Benchmarker {
    /// The counting discipline: the sample count stays inside the window,
    /// the window is small enough to average over, and the running sum is
    /// the sum of the open window's samples.
    pub open spec fn wf(&self) -> bool {
        &&& self.window <= 0xffff_ffff
        &&& self.window == 0 ==> self.count == 0
        &&& self.window > 0 ==> self.count < self.window
        &&& self.count == self.samples@.len()
        &&& self.count > 0 ==> self.sum == sum_of(self.samples@)
    }

    /// A fresh benchmarker buffering `window` samples between reports.
    ///
    /// The window is capped at the largest count a duration can be divided
    /// by.
    pub fn new(window: usize) -> (r: Benchmarker)
        requires
            window <= 0xffff_ffff,
        ensures
            r.wf(),
            r.count == 0,
            r.window == window,
    {
        Benchmarker {
            last: instant_now(),
            sum: duration_zero(),
            samples: Ghost(Seq::empty()),
            count: 0,
            window,
        }
    }

    /// Starts timing one sample: only the interval origin moves.
    pub fn start(&mut self)
        requires
            old(self).wf(),
        ensures
            final(self).wf(),
            final(self).count == old(self).count,
            final(self).window == old(self).window,
            final(self).sum == old(self).sum,
            final(self).samples == old(self).samples,
    {
        self.last = instant_now();
    }

    /// Ends one sample: adds the elapsed time to the open window and, once
    /// the window is full, reports the mean of the window's samples — their
    /// sum divided by their count — and resets.
    pub fn stop(&mut self) -> (r: Option<std::time::Duration>)
        requires
            old(self).wf(),
        ensures
            final(self).wf(),
            final(self).window == old(self).window,
            r is Some <==> old(self).count + 1 >= old(self).window,
            final(self).count == (if r is Some {
                0int
            } else {
                old(self).count + 1
            }),
            r is Some ==> final(self).samples@ == Seq::<std::time::Duration>::empty() && (
            exists|s: std::time::Duration|
                r == Some(
                    dur_div_of(
                        #[trigger] sum_of(old(self).samples@.push(s)),
                        (old(self).count + 1) as u32,
                    ),
                )),
            r is None ==> exists|s: std::time::Duration|
                final(self).samples@ == old(self).samples@.push(s),
    {
        let now = instant_now();
        let sample = elapsed_between(&now, &self.last);
        if self.count == 0 {
            self.sum = sample;
        } else {
            self.sum = duration_add(self.sum, sample);
        }
        proof {
            let grown = old(self).samples@.push(sample);
            if old(self).count == 0 {
                assert(grown.len() == 1);
                assert(self.sum == grown[0]);
            } else {
                assert(grown.drop_last() =~= old(self).samples@);
                assert(grown.last() == sample);
            }
            assert(self.sum == sum_of(grown));
        }
        self.samples = Ghost(self.samples@.push(sample));
        self.count = self.count + 1;
        if self.count >= self.window {
            let divisor: u32 = self.count as u32;
            let report = Some(duration_div(self.sum, divisor));
            self.count = 0;
            self.sum = duration_zero();
            self.samples = Ghost(Seq::empty());
            report
        } else {
            None
        }
    }

    /// Runs `f` as one timed sample; hands back its result, and the
    /// window's mean when this sample filled the window.
    pub fn run<T, FN: FnOnce() -> T>(&mut self, f: FN) -> (r: (T, Option<std::time::Duration>))
        requires
            old(self).wf(),
            call_requires(f, ()),
        ensures
            final(self).wf(),
            final(self).window == old(self).window,
            call_ensures(f, (), r.0),
            r.1 is Some <==> old(self).count + 1 >= old(self).window,
            final(self).count == (if r.1 is Some {
                0int
            } else {
                old(self).count + 1
            }),
            r.1 is Some ==> exists|s: std::time::Duration|
                r.1 == Some(
                    dur_div_of(
                        #[trigger] sum_of(old(self).samples@.push(s)),
                        (old(self).count + 1) as u32,
                    ),
                ),
    {
        self.start();
        let t = f();
        let report = self.stop();
        (t, report)
    }
}

} // verus!
