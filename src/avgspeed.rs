//! Smoothed throughput: a fixed-capacity window of byte-rate samples and the
//! rate function that turns a byte count and an elapsed time into a sample.
use std::collections::VecDeque;
use std::time::Instant;

use vstd::prelude::*;

verus! {

/// Number of samples an [`AvgSpeed`] keeps.
pub const WINDOW_SIZE: usize = 100;

/// Rate reported when the elapsed time is too short to measure.
pub const UNMEASURABLE: u64 = 0xffff_ffff_ffff_ffff;

pub const NANOS_PER_SEC: u64 = 1_000_000_000;

pub const MICROS_PER_SEC: u64 = 1_000_000;

pub const MILLIS_PER_SEC: u64 = 1_000;

/// Sum of the samples.
pub open spec fn seq_sum(s: Seq<u64>) -> int
    decreases s.len(),
{
    if s.len() == 0 {
        0
    } else {
        seq_sum(s.drop_last()) + s.last()
    }
}

/// Arithmetic mean of a non-empty run of samples, rounded down.
pub open spec fn mean(s: Seq<u64>) -> int {
    seq_sum(s) / (s.len() as int)
}

/// The window after one insertion: the sample joins at the back, and the
/// oldest one leaves once the window would exceed its capacity.
pub open spec fn window_push(w: Seq<u64>, size: nat, v: u64) -> Seq<u64> {
    if w.len() + 1 > size {
        w.push(v).drop_first()
    } else {
        w.push(v)
    }
}

/// The window after inserting `samples`, in order, into an empty window.
pub open spec fn window_after(size: nat, samples: Seq<u64>) -> Seq<u64>
    decreases samples.len(),
{
    if samples.len() == 0 {
        Seq::empty()
    } else {
        window_push(window_after(size, samples.drop_last()), size, samples.last())
    }
}

/// Bytes per second for `bytes` moved in `nanos` nanoseconds: the finest unit
/// (ns, then µs, ms, s) in which the elapsed time is at least one unit and the
/// scaled byte count fits in a `u64`; [`UNMEASURABLE`] when none applies.
pub open spec fn speed_of(bytes: u64, nanos: u128) -> u64 {
    if nanos >= 1 && bytes <= UNMEASURABLE / NANOS_PER_SEC {
        (bytes * NANOS_PER_SEC / (nanos as int)) as u64
    } else if nanos >= 1_000 && bytes <= UNMEASURABLE / MICROS_PER_SEC {
        (bytes * MICROS_PER_SEC / (nanos / 1_000) as int) as u64
    } else if nanos >= 1_000_000 && bytes <= UNMEASURABLE / MILLIS_PER_SEC {
        (bytes * MILLIS_PER_SEC / (nanos / 1_000_000) as int) as u64
    } else if nanos >= 1_000_000_000 {
        (bytes as int / (nanos / 1_000_000_000) as int) as u64
    } else {
        UNMEASURABLE
    }
}

proof fn lemma_sum_bound(s: Seq<u64>)
    ensures
        0 <= seq_sum(s) <= s.len() * (UNMEASURABLE as int),
    decreases s.len(),
{
    if s.len() > 0 {
        lemma_sum_bound(s.drop_last());
    }
}

proof fn lemma_sum_drop_first(s: Seq<u64>)
    requires
        s.len() > 0,
    ensures
        seq_sum(s) == s[0] + seq_sum(s.drop_first()),
    decreases s.len(),
{
    if s.len() > 1 {
        lemma_sum_drop_first(s.drop_last());
        assert(s.drop_last().drop_first() =~= s.drop_first().drop_last());
        assert(s.drop_first().last() == s.last());
        assert(s.drop_last()[0] == s[0]);
    } else {
        assert(s.drop_first().len() == 0);
        assert(s.drop_last().len() == 0);
        assert(seq_sum(s.drop_first()) == 0);
        assert(seq_sum(s.drop_last()) == 0);
    }
}

proof fn lemma_div_le(a: int, d: int)
    requires
        a >= 0,
        d >= 1,
    ensures
        a / d <= a,
{
    assert(a / d <= a) by (nonlinear_arith)
        requires
            a >= 0,
            d >= 1,
    ;
}

proof fn lemma_mean_fits(s: Seq<u64>)
    requires
        s.len() > 0,
    ensures
        0 <= mean(s) <= UNMEASURABLE,
{
    lemma_sum_bound(s);
    let n = s.len() as int;
    let t = seq_sum(s);
    assert(0 <= t / n <= UNMEASURABLE) by (nonlinear_arith)
        requires
            n > 0,
            0 <= t <= n * (UNMEASURABLE as int),
    ;
}

/// A window never holds more samples than its capacity, and it holds exactly
/// the most recent `min(size, samples.len())` of the samples inserted.
pub proof fn lemma_window_keeps_latest(size: nat, samples: Seq<u64>)
    ensures
        window_after(size, samples).len() <= size,
        window_after(size, samples) == samples.subrange(
            samples.len() - if samples.len() <= size { samples.len() as int } else { size as int },
            samples.len() as int,
        ),
    decreases samples.len(),
{
    if samples.len() > 0 {
        let d = samples.drop_last();
        lemma_window_keeps_latest(size, d);
        let w = window_after(size, d);
        let n = samples.len() as int;
        if w.len() + 1 > size {
            assert(window_after(size, samples) =~= samples.subrange(n - size, n));
        } else {
            assert(window_after(size, samples) =~= samples);
        }
    } else {
        assert(window_after(size, samples) =~= samples.subrange(0, 0));
    }
}

/// Inserting one more sample moves the window by one [`window_push`] step, so
/// that the window of a [`RollingAverage`] after a run of `add` calls from
/// `new` is [`window_after`] of the samples added.
pub proof fn lemma_window_step(size: nat, samples: Seq<u64>, v: u64)
    ensures
        window_after(size, samples.push(v)) == window_push(window_after(size, samples), size, v),
{
    assert(samples.push(v).drop_last() =~= samples);
}

/// After `k <= size` insertions into an empty window, the window holds exactly
/// those `k` samples, so its average is their arithmetic mean.
pub proof fn lemma_average_of_first_samples(size: nat, samples: Seq<u64>)
    requires
        0 < samples.len() <= size,
    ensures
        window_after(size, samples) == samples,
        mean(window_after(size, samples)) == mean(samples),
{
    lemma_window_keeps_latest(size, samples);
    assert(samples.subrange(0, samples.len() as int) =~= samples);
}

/// Moving average over the last `size` values added.
pub struct RollingAverage {
    hist: VecDeque<u64>,
    sum: u128,
    size: usize,
}

impl RollingAverage {
    /// The samples in the window, oldest first.
    pub closed spec fn window(&self) -> Seq<u64> {
        self.hist@
    }

    /// How many samples the window keeps.
    pub closed spec fn capacity(&self) -> nat {
        self.size as nat
    }

    /// The window is within its capacity and the running sum matches it.
    pub closed spec fn wf(&self) -> bool {
        &&& self.hist@.len() <= self.size
        &&& self.sum == seq_sum(self.hist@)
    }

    pub fn new(size: usize) -> (r: Self)
        ensures
            r.wf(),
            r.window() == Seq::<u64>::empty(),
            r.capacity() == size,
            r.window().len() <= r.capacity(),
    {
        RollingAverage { hist: VecDeque::with_capacity(size), sum: 0, size }
    }

    pub fn add(&mut self, val: u64)
        requires
            old(self).wf(),
        ensures
            final(self).wf(),
            final(self).capacity() == old(self).capacity(),
            final(self).window().len() <= final(self).capacity(),
            final(self).window() == window_push(old(self).window(), old(self).capacity(), val),
    {
        let ghost w0 = self.hist@;
        proof {
            lemma_sum_bound(w0.push(val));
            assert(w0.push(val).drop_last() =~= w0);
            assert((w0.len() + 1) * (UNMEASURABLE as int) < 0x1_0000_0000_0000_0000_0000_0000_0000_0000)
                by (nonlinear_arith)
                requires
                    w0.len() <= usize::MAX,
            ;
        }
        self.hist.push_back(val);
        self.sum = self.sum + val as u128;
        if self.hist.len() > self.size {
            let first = self.hist.pop_front();
            proof {
                lemma_sum_drop_first(w0.push(val));
                lemma_sum_bound(w0.push(val).drop_first());
            }
            match first {
                Some(x) => {
                    self.sum = self.sum - x as u128;
                },
                None => {},
            }
        }
    }

    pub fn get(&self) -> (r: u64)
        requires
            self.wf(),
            self.window().len() > 0,
        ensures
            r == mean(self.window()),
    {
        proof {
            lemma_mean_fits(self.hist@);
        }
        (self.sum / (self.hist.len() as u128)) as u64
    }
}

/// Bytes per second for `x` bytes moved in `ela_nanos` nanoseconds.
pub fn get_speed(x: u64, ela_nanos: u128) -> (r: u64)
    ensures
        r == speed_of(x, ela_nanos),
{
    let b = x as u128;
    if ela_nanos >= 1 && x <= UNMEASURABLE / NANOS_PER_SEC {
        let q = b * (NANOS_PER_SEC as u128) / ela_nanos;
        proof {
            lemma_div_le((b as int) * (NANOS_PER_SEC as int), ela_nanos as int);
        }
        q as u64
    } else if ela_nanos >= 1_000 && x <= UNMEASURABLE / MICROS_PER_SEC {
        let d = ela_nanos / 1_000;
        let q = b * (MICROS_PER_SEC as u128) / d;
        proof {
            lemma_div_le((b as int) * (MICROS_PER_SEC as int), d as int);
        }
        q as u64
    } else if ela_nanos >= 1_000_000 && x <= UNMEASURABLE / MILLIS_PER_SEC {
        let d = ela_nanos / 1_000_000;
        let q = b * (MILLIS_PER_SEC as u128) / d;
        proof {
            lemma_div_le((b as int) * (MILLIS_PER_SEC as int), d as int);
        }
        q as u64
    } else if ela_nanos >= 1_000_000_000 {
        let d = ela_nanos / 1_000_000_000;
        let q = b / d;
        proof {
            lemma_div_le(b as int, d as int);
        }
        q as u64
    } else {
        UNMEASURABLE
    }
}

#[verifier::external_type_specification]
#[verifier::external_body]
pub struct ExInstant(Instant);

/// Relies on `std::time::Instant::now`: a reading of the monotonic clock, of
/// which nothing can be promised.
pub assume_specification[ Instant::now ]() -> Instant;

/// Relies on `std::time::Instant::duration_since` and `Duration::as_nanos`:
/// the time from `earlier` to `later` in nanoseconds. It depends on clock
/// readings, so nothing is stated of it.
#[verifier::external_body]
fn nanos_between(later: &Instant, earlier: &Instant) -> u128 {
    later.duration_since(*earlier).as_nanos()
}

/// Smoothed transfer speed, fed with the cumulative byte count at each
/// display refresh.
pub struct AvgSpeed {
    avg: RollingAverage,
    prev_bytes: u64,
    last_chunk: Instant,
}

impl AvgSpeed {
    /// The rate samples currently averaged, oldest first.
    pub closed spec fn samples(&self) -> Seq<u64> {
        self.avg.window()
    }

    /// The cumulative byte count given at the previous update.
    pub closed spec fn prev_bytes(&self) -> u64 {
        self.prev_bytes
    }

    pub closed spec fn wf(&self) -> bool {
        &&& self.avg.wf()
        &&& self.avg.capacity() == WINDOW_SIZE
    }

    pub fn new() -> (r: Self)
        ensures
            r.wf(),
            r.samples() == Seq::<u64>::empty(),
            r.prev_bytes() == 0,
    {
        AvgSpeed { avg: RollingAverage::new(WINDOW_SIZE), prev_bytes: 0, last_chunk: Instant::now() }
    }

    /// Records that `total_bytes` bytes have moved in all, `ela_nanos`
    /// nanoseconds after the previous update.
    pub fn add_sample(&mut self, total_bytes: u64, ela_nanos: u128)
        requires
            old(self).wf(),
            old(self).prev_bytes() <= total_bytes,
        ensures
            final(self).wf(),
            final(self).prev_bytes() == total_bytes,
            final(self).samples() == window_push(
                old(self).samples(),
                WINDOW_SIZE as nat,
                speed_of((total_bytes - old(self).prev_bytes()) as u64, ela_nanos),
            ),
    {
        let db = total_bytes - self.prev_bytes;
        let v = get_speed(db, ela_nanos);
        self.avg.add(v);
        self.prev_bytes = total_bytes;
    }

    /// Records that `total_bytes` bytes have moved in all, timing the interval
    /// since the previous update with the clock.
    pub fn add(&mut self, total_bytes: u64)
        requires
            old(self).wf(),
            old(self).prev_bytes() <= total_bytes,
        ensures
            final(self).wf(),
            final(self).prev_bytes() == total_bytes,
            exists|ela: u128|
                final(self).samples() == window_push(
                    old(self).samples(),
                    WINDOW_SIZE as nat,
                    #[trigger] speed_of((total_bytes - old(self).prev_bytes()) as u64, ela),
                ),
    {
        let now = Instant::now();
        let ela = nanos_between(&now, &self.last_chunk);
        self.add_sample(total_bytes, ela);
        self.last_chunk = now;
    }

    /// The cumulative byte count given at the previous update.
    pub fn last_total(&self) -> (r: u64)
        ensures
            r == self.prev_bytes(),
    {
        self.prev_bytes
    }

    /// The mean of the samples in the window.
    pub fn get(&self) -> (r: u64)
        requires
            self.wf(),
            self.samples().len() > 0,
        ensures
            r == mean(self.samples()),
    {
        self.avg.get()
    }
}

} // verus!
