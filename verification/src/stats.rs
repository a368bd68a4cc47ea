//! Frame time and timing statistics of the map application.
//!
//! Durations and timestamps are counts of nanoseconds; the application reads
//! the clock and hands them in.

use vstd::prelude::*;
use std::collections::VecDeque;

verus! {

/// How many frame times are kept.
pub const FPS_SAMPLES: usize = 3000;

/// Rolling time window of a timing series: ten seconds.
pub const WINDOW_NANOS: u128 = 10_000_000_000;

/// One second.
pub const NANOS_PER_SEC: u128 = 1_000_000_000;

/// The longest duration that `std::time::Duration` can hold, in nanoseconds.
pub const DURATION_MAX_NANOS: u128 = 18_446_744_073_709_551_615_999_999_999;

/// The nanoseconds of `Duration::new(secs, subsec_nanos) / n`.
pub uninterp spec fn duration_quotient(secs: u64, subsec_nanos: u32, n: u32) -> u128;

/// Calls `Duration::new(secs, subsec_nanos) / n` and reads the result with
/// `Duration::as_nanos`. `Duration::new` carries whole seconds over from the
/// nanoseconds and panics only when that overflows, which cannot happen below
/// one second of nanoseconds; dividing by zero panics. How the division rounds
/// is not stated here; its result is named `duration_quotient`.
#[verifier::external_body]
fn divide_duration(secs: u64, subsec_nanos: u32, n: u32) -> (r: u128)
    requires
        subsec_nanos < 1_000_000_000,
        n > 0,
    ensures
        r == duration_quotient(secs, subsec_nanos, n),
{
    (std::time::Duration::new(secs, subsec_nanos) / n).as_nanos()
}

/// The nanoseconds of a duration of `total` nanoseconds divided by `n`.
pub open spec fn quotient(total: int, n: u32) -> u128 {
    duration_quotient((total / 1_000_000_000) as u64, (total % 1_000_000_000) as u32, n)
}

/// Divides a duration of `total` nanoseconds by `n` the way `Duration` does.
pub fn divide_nanos(total: u128, n: u32) -> (r: u128)
    requires
        total <= DURATION_MAX_NANOS,
        n > 0,
    ensures
        r == quotient(total as int, n),
{
    let secs = (total / 1_000_000_000) as u64;
    let subsec = (total % 1_000_000_000) as u32;
    divide_duration(secs, subsec, n)
}

/// The samples of a series once those older than the window before `now`
/// are dropped from the front.
pub open spec fn pruned(samples: Seq<(u128, u128)>, now: u128) -> Seq<(u128, u128)>
    decreases samples.len(),
{
    if samples.len() > 0 && now - samples[0].0 > WINDOW_NANOS {
        pruned(samples.drop_first(), now)
    } else {
        samples
    }
}

/// The sum of the durations of some samples.
pub open spec fn sample_total(samples: Seq<(u128, u128)>) -> int
    decreases samples.len(),
{
    if samples.len() == 0 {
        0
    } else {
        sample_total(samples.drop_last()) + samples.last().1
    }
}

/// The longest duration of some samples, or zero.
pub open spec fn sample_max(samples: Seq<(u128, u128)>) -> u128
    decreases samples.len(),
{
    if samples.len() == 0 {
        0
    } else {
        let m = sample_max(samples.drop_last());
        if samples.last().1 > m {
            samples.last().1
        } else {
            m
        }
    }
}

/// A named series of timing samples: `(timestamp, duration)` pairs within
/// the last ten seconds.
pub struct Series {
    pub name: String,
    samples: VecDeque<(u128, u128)>,
}

impl Series {
    /// The series' name.
    pub closed spec fn name_text(&self) -> Seq<char> {
        self.name@
    }

    /// The samples, oldest first.
    pub closed spec fn sample_seq(&self) -> Seq<(u128, u128)> {
        self.samples@
    }

    fn new(name: String) -> (s: Self)
        ensures
            s.name == name,
            s.sample_seq() == Seq::<(u128, u128)>::empty(),
    {
        Series { name, samples: VecDeque::new() }
    }

    /// Adds a sample taken at `now`, then drops the samples at the front
    /// that are older than the window before `now`.
    fn push(&mut self, now: u128, d: u128)
        ensures
            final(self).name == old(self).name,
            final(self).sample_seq() == pruned(old(self).sample_seq().push((now, d)), now),
    {
        self.samples.push_back((now, d));
        loop
            invariant
                pruned(old(self).sample_seq().push((now, d)), now) == pruned(self.samples@, now),
                self.name == old(self).name,
            decreases self.samples@.len(),
        {
            if self.samples.len() == 0 {
                return;
            }
            let (t, _) = self.samples[0];
            if now > t && now - t > WINDOW_NANOS {
                let ghost before = self.samples@;
                self.samples.pop_front();
                assert(self.samples@ =~= before.drop_first());
            } else {
                return;
            }
        }
    }

    /// Whether the series holds no sample.
    pub fn is_empty(&self) -> (r: bool)
        ensures
            r == (self.sample_seq().len() == 0),
    {
        self.samples.len() == 0
    }

    /// The durations of the samples, oldest first.
    pub fn durations(&self) -> (r: Vec<u128>)
        ensures
            r@ == self.sample_seq().map_values(|s: (u128, u128)| s.1),
    {
        let mut out: Vec<u128> = Vec::new();
        let n = self.samples.len();
        let mut i: usize = 0;
        while i < n
            invariant
                n == self.samples@.len(),
                i <= n,
                out@ == self.samples@.take(i as int).map_values(|s: (u128, u128)| s.1),
            decreases n - i,
        {
            out.push(self.samples[i].1);
            assert(self.samples@.take(i + 1).map_values(|s: (u128, u128)| s.1) =~= self.samples@.take(
                i as int,
            ).map_values(|s: (u128, u128)| s.1).push(self.samples@[i as int].1));
            i = i + 1;
        }
        assert(self.samples@.take(n as int) =~= self.samples@);
        out
    }

    /// The mean duration of the samples: their sum divided by their number
    /// (cut to a `u32`) the way `Duration` divides, or zero when there are none.
    pub fn average(&self) -> (r: u128)
        requires
            self.sample_seq().len() % 0x1_0000_0000 != 0 || self.sample_seq().len() == 0,
            sample_total(self.sample_seq()) <= DURATION_MAX_NANOS,
        ensures
            r == if self.sample_seq().len() == 0 {
                0
            } else {
                quotient(
                    sample_total(self.sample_seq()),
                    (self.sample_seq().len() % 0x1_0000_0000) as u32,
                )
            },
    {
        let n = self.samples.len();
        if n == 0 {
            return 0;
        }
        let mut total: u128 = 0;
        let mut i: usize = 0;
        while i < n
            invariant
                n == self.samples@.len(),
                i <= n,
                total == sample_total(self.samples@.take(i as int)),
                sample_total(self.samples@) <= DURATION_MAX_NANOS,
            decreases n - i,
        {
            proof {
                lemma_total_prefix_bound(self.samples@, i as int + 1);
                assert(self.samples@.take(i + 1).drop_last() =~= self.samples@.take(i as int));
            }
            total = total + self.samples[i].1;
            i = i + 1;
        }
        assert(self.samples@.take(n as int) =~= self.samples@);
        let count = ((n as u64) % 0x1_0000_0000) as u32;
        divide_nanos(total, count)
    }

    /// The longest duration of the samples, or zero when there are none.
    pub fn max(&self) -> (r: u128)
        ensures
            r == sample_max(self.sample_seq()),
    {
        let n = self.samples.len();
        let mut m: u128 = 0;
        let mut i: usize = 0;
        while i < n
            invariant
                n == self.samples@.len(),
                i <= n,
                m == sample_max(self.samples@.take(i as int)),
            decreases n - i,
        {
            assert(self.samples@.take(i + 1).drop_last() =~= self.samples@.take(i as int));
            if self.samples[i].1 > m {
                m = self.samples[i].1;
            }
            i = i + 1;
        }
        assert(self.samples@.take(n as int) =~= self.samples@);
        m
    }
}

/// The longest duration is the maximum of the durations: no sample is
/// longer, some sample is that long, and it is zero when there are none.
pub proof fn lemma_sample_max_is_maximum(samples: Seq<(u128, u128)>)
    ensures
        forall|i: int| 0 <= i < samples.len() ==> (#[trigger] samples[i]).1 <= sample_max(samples),
        samples.len() > 0 ==> exists|i: int| 0 <= i < samples.len() && (#[trigger] samples[i]).1 == sample_max(samples),
        samples.len() == 0 ==> sample_max(samples) == 0,
    decreases samples.len(),
{
    if samples.len() > 0 {
        let init = samples.drop_last();
        lemma_sample_max_is_maximum(init);
        let n = samples.len() - 1;
        assert forall|i: int| 0 <= i < samples.len() implies (#[trigger] samples[i]).1 <= sample_max(samples) by {
            if i < n {
                assert(samples[i] == init[i]);
            }
        }
        if samples.last().1 > sample_max(init) {
            assert(samples[n].1 == sample_max(samples));
        } else if init.len() > 0 {
            let i = choose|i: int| 0 <= i < init.len() && (#[trigger] init[i]).1 == sample_max(init);
            assert(samples[i] == init[i]);
        } else {
            assert(samples[n].1 == sample_max(samples));
        }
    }
}

/// The total of a prefix of samples is at most the total of all of them.
pub proof fn lemma_total_prefix_bound(samples: Seq<(u128, u128)>, k: int)
    requires
        0 <= k <= samples.len(),
    ensures
        sample_total(samples.take(k)) <= sample_total(samples),
    decreases samples.len() - k,
{
    if k < samples.len() {
        lemma_total_prefix_bound(samples, k + 1);
        assert(samples.take(k + 1).drop_last() =~= samples.take(k));
    } else {
        assert(samples.take(k) =~= samples);
    }
}

/// Walking back from the newest frame time, having taken `i` of them with
/// sum `total`: how many are taken until their sum reaches one second (or
/// all are taken), and their sum.
pub open spec fn recent_from(times: Seq<u128>, i: int, total: int) -> (int, int)
    decreases times.len() - i,
{
    if 0 <= i < times.len() {
        let sum = total + times[times.len() - 1 - i];
        if sum >= NANOS_PER_SEC {
            (i + 1, sum)
        } else {
            recent_from(times, i + 1, sum)
        }
    } else {
        (i, total)
    }
}

/// The newest frame times that together reach one second (or all of them):
/// their number and their sum.
pub open spec fn recent(times: Seq<u128>) -> (int, int) {
    recent_from(times, 0, 0)
}

/// The walk back only adds: every partial sum is at most the final one, and
/// the count stays within the frame times.
pub proof fn lemma_recent_from_grows(times: Seq<u128>, i: int, total: int)
    requires
        0 <= i <= times.len(),
    ensures
        recent_from(times, i, total).1 >= total,
        i < times.len() ==> recent_from(times, i, total).1 >= total + times[times.len() - 1 - i],
        i <= recent_from(times, i, total).0 <= times.len(),
        i < times.len() ==> recent_from(times, i, total).0 > i,
    decreases times.len() - i,
{
    if i < times.len() {
        let sum = total + times[times.len() - 1 - i];
        if sum < NANOS_PER_SEC {
            lemma_recent_from_grows(times, i + 1, sum);
        }
    }
}

/// The timestamps of `samples` never decrease and none is later than `now`.
pub open spec fn in_time_order(samples: Seq<(u128, u128)>, now: u128) -> bool {
    &&& forall|i: int, j: int| 0 <= i <= j < samples.len() ==> samples[i].0 <= samples[j].0
    &&& forall|i: int| 0 <= i < samples.len() ==> #[trigger] samples[i].0 <= now
}

/// A sample taken at `now` is never dropped from the window ending at
/// `now`: it stays the newest sample.
pub proof fn lemma_pruned_keeps_newest(samples: Seq<(u128, u128)>, now: u128, d: u128)
    ensures
        pruned(samples.push((now, d)), now).len() >= 1,
        pruned(samples.push((now, d)), now).last() == (now, d),
    decreases samples.len(),
{
    let all = samples.push((now, d));
    if samples.len() > 0 && now - samples[0].0 > WINDOW_NANOS {
        assert(all.drop_first() =~= samples.drop_first().push((now, d)));
        lemma_pruned_keeps_newest(samples.drop_first(), now, d);
    }
}

/// With timestamps in time order, pruning keeps exactly the samples of the
/// window ending at `now`: what is kept is the newest part of the samples,
/// every kept sample is at most ten seconds old, and every dropped one is
/// older.
pub proof fn lemma_pruned_window(samples: Seq<(u128, u128)>, now: u128)
    requires
        in_time_order(samples, now),
    ensures
        pruned(samples, now).len() <= samples.len(),
        pruned(samples, now) == samples.skip(samples.len() - pruned(samples, now).len()),
        forall|i: int| 0 <= i < pruned(samples, now).len()
            ==> now - (#[trigger] pruned(samples, now)[i]).0 <= WINDOW_NANOS,
        forall|i: int| 0 <= i < samples.len() - pruned(samples, now).len()
            ==> now - (#[trigger] samples[i]).0 > WINDOW_NANOS,
    decreases samples.len(),
{
    if samples.len() > 0 && now - samples[0].0 > WINDOW_NANOS {
        let rest = samples.drop_first();
        assert(in_time_order(rest, now)) by {
            assert forall|i: int, j: int| 0 <= i <= j < rest.len() implies rest[i].0 <= rest[j].0 by {
                assert(samples[i + 1].0 <= samples[j + 1].0);
            }
            assert forall|i: int| 0 <= i < rest.len() implies #[trigger] rest[i].0 <= now by {
                assert(samples[i + 1].0 <= now);
            }
        }
        lemma_pruned_window(rest, now);
        let k = rest.len() - pruned(rest, now).len();
        assert(rest.skip(k) =~= samples.skip(k + 1));
        assert forall|i: int| 0 <= i < samples.len() - pruned(samples, now).len()
            implies now - (#[trigger] samples[i]).0 > WINDOW_NANOS by {
            if i > 0 {
                assert(samples[i] == rest[i - 1]);
            }
        }
    } else {
        assert(samples.skip(0) =~= samples);
        if samples.len() > 0 {
            assert forall|i: int| 0 <= i < samples.len()
                implies now - (#[trigger] samples[i]).0 <= WINDOW_NANOS by {
                assert(samples[0].0 <= samples[i].0);
            }
        }
    }
}

/// The sum of the newest `n` frame times.
pub open spec fn newest_total(times: Seq<u128>, n: int) -> int
    decreases n,
{
    if n <= 0 || n > times.len() {
        0
    } else {
        newest_total(times, n - 1) + times[times.len() - n]
    }
}

proof fn lemma_recent_from_sums(times: Seq<u128>, i: int, total: int)
    requires
        0 <= i <= times.len(),
        total == newest_total(times, i),
        i > 0 ==> newest_total(times, i) < NANOS_PER_SEC,
    ensures
        ({
            let (n, sum) = recent_from(times, i, total);
            &&& i <= n <= times.len()
            &&& sum == newest_total(times, n)
            &&& (sum >= NANOS_PER_SEC || n == times.len())
            &&& (n > 0 ==> newest_total(times, n - 1) < NANOS_PER_SEC)
        }),
    decreases times.len() - i,
{
    if i < times.len() {
        let sum = total + times[times.len() - 1 - i];
        assert(newest_total(times, i + 1) == sum);
        if sum < NANOS_PER_SEC {
            lemma_recent_from_sums(times, i + 1, sum);
        }
    }
}

/// The frame times averaged by `get_average` are the newest ones, just
/// enough of them to reach one second: their sum reaches one second unless
/// every frame time is taken, and without the oldest of them it stays
/// below one second.
pub proof fn lemma_recent_reaches_second(times: Seq<u128>)
    ensures
        ({
            let (n, sum) = recent(times);
            &&& 0 <= n <= times.len()
            &&& sum == newest_total(times, n)
            &&& (sum >= NANOS_PER_SEC || n == times.len())
            &&& (n > 0 ==> newest_total(times, n - 1) < NANOS_PER_SEC)
        }),
{
    lemma_recent_from_sums(times, 0, 0);
}

/// The frame time and timing statistics.
pub struct Stats {
    last_frametimes: VecDeque<u128>,
    frames: u64,
    series: Vec<Series>,
    latest: u128,
}

impl Stats {
    /// Exactly `FPS_SAMPLES` frame times are kept, no two series share a
    /// name, and the samples of every series are in time order, none later
    /// than the latest sample recorded.
    pub closed spec fn wf(&self) -> bool {
        &&& self.last_frametimes@.len() == FPS_SAMPLES
        &&& distinct_series_names(self.series@)
        &&& series_in_time_order(self.series@, self.latest)
    }

    /// When the latest sample of any series was taken (zero before any).
    pub closed spec fn latest_time(&self) -> u128 {
        self.latest
    }

    /// When the latest sample of any series was taken (zero before any).
    pub fn latest(&self) -> (r: u128)
        ensures
            r == self.latest_time(),
    {
        self.latest
    }

    /// The frame times, oldest first.
    pub closed spec fn frame_times(&self) -> Seq<u128> {
        self.last_frametimes@
    }

    /// The number of frames captured.
    pub closed spec fn frame_count(&self) -> u64 {
        self.frames
    }

    /// The timing series, in the order they were first recorded.
    pub closed spec fn series_list(&self) -> Seq<Series> {
        self.series@
    }

    /// Statistics with every frame time at two milliseconds and no series.
    pub fn new() -> (s: Self)
        ensures
            s.wf(),
            s.frame_times() == Seq::new(FPS_SAMPLES as nat, |i: int| 2_000_000u128),
            s.frame_count() == 0,
            s.series_list().len() == 0,
            s.latest_time() == 0,
    {
        let mut dq: VecDeque<u128> = VecDeque::new();
        let mut i: usize = 0;
        while i < FPS_SAMPLES
            invariant
                i <= FPS_SAMPLES,
                dq@ == Seq::new(i as nat, |k: int| 2_000_000u128),
            decreases FPS_SAMPLES - i,
        {
            dq.push_back(2_000_000);
            assert(dq@ =~= Seq::new((i + 1) as nat, |k: int| 2_000_000u128));
            i = i + 1;
        }
        Stats { last_frametimes: dq, frames: 0, series: Vec::new(), latest: 0 }
    }

    /// The number of frames captured.
    pub fn frames(&self) -> (r: u64)
        ensures
            r == self.frame_count(),
    {
        self.frames
    }

    /// Records the time `elapsed` that the last frame took: the oldest frame
    /// time is dropped and `elapsed` added as the newest.
    pub fn capture_frame(&mut self, elapsed: u128)
        requires
            old(self).wf(),
            old(self).frame_count() < u64::MAX,
        ensures
            final(self).wf(),
            final(self).frame_times() == old(self).frame_times().drop_first().push(elapsed),
            final(self).frame_count() == old(self).frame_count() + 1,
            final(self).series_list() == old(self).series_list(),
    {
        self.last_frametimes.pop_front();
        self.last_frametimes.push_back(elapsed);
        assert(self.last_frametimes@ =~= old(self).last_frametimes@.drop_first().push(elapsed));
        self.frames = self.frames + 1;
    }

    /// Mean frame time over roughly the last second: the newest frame times
    /// are summed until they reach one second, and the sum is divided by
    /// their number the way `Duration` divides; `None` when that sum is too
    /// long for a `Duration`.
    pub fn try_get_average(&self) -> (r: Option<u128>)
        requires
            self.wf(),
        ensures
            r == if recent(self.frame_times()).1 <= DURATION_MAX_NANOS {
                Some(quotient(recent(self.frame_times()).1, recent(self.frame_times()).0 as u32))
            } else {
                None
            },
    {
        let len = self.last_frametimes.len();
        let mut total: u128 = 0;
        let mut n: u32 = 0;
        let mut i: usize = 0;
        proof {
            lemma_recent_from_grows(self.last_frametimes@, 0, 0);
        }
        loop
            invariant
                len == self.last_frametimes@.len(),
                len == FPS_SAMPLES,
                i <= len,
                n == i,
                total < NANOS_PER_SEC,
                recent(self.last_frametimes@) == recent_from(self.last_frametimes@, i as int, total as int),
            decreases len - i,
        {
            if i == len {
                assert(recent(self.last_frametimes@) == (i as int, total as int));
                return Some(divide_nanos(total, n));
            }
            proof {
                lemma_recent_from_grows(self.last_frametimes@, i as int, total as int);
            }
            let next = self.last_frametimes[len - 1 - i];
            n = n + 1;
            i = i + 1;
            match total.checked_add(next) {
                None => {
                    assert(recent(self.last_frametimes@).1 > u128::MAX);
                    return None;
                },
                Some(sum) => {
                    total = sum;
                },
            }
            if total >= 1_000_000_000 {
                assert(recent(self.last_frametimes@) == (i as int, total as int));
                if total > DURATION_MAX_NANOS {
                    return None;
                }
                return Some(divide_nanos(total, n));
            }
        }
    }

    /// Mean frame time over roughly the last second: the newest frame times
    /// are summed until they reach one second, and the sum is divided by
    /// their number the way `Duration` divides.
    pub fn get_average(&self) -> (r: u128)
        requires
            self.wf(),
            recent(self.frame_times()).1 <= DURATION_MAX_NANOS,
        ensures
            r == quotient(recent(self.frame_times()).1, recent(self.frame_times()).0 as u32),
    {
        match self.try_get_average() {
            Some(r) => r,
            None => 0,
        }
    }

    /// The frame times, oldest first.
    pub fn get_times(&self) -> (r: &VecDeque<u128>)
        ensures
            r@ == self.frame_times(),
    {
        &self.last_frametimes
    }

    /// Records one sample of `d` taken at `now` for the series `name`,
    /// creating the series on first sight. Samples are taken from a
    /// monotonic clock: `now` is no earlier than the latest sample. The
    /// series then holds only the samples of the last ten seconds, the new
    /// one last.
    pub fn record(&mut self, name: &str, now: u128, d: u128)
        requires
            now >= old(self).latest_time(),
        ensures
            final(self).latest_time() == now,
            old(self).wf() ==> final(self).wf(),
            old(self).wf() ==> ({
                let s = final(self).series_list()[first_series_named(final(self).series_list(), name@)].sample_seq();
                &&& s.len() >= 1
                &&& s.last() == (now, d)
                &&& in_time_order(s, now)
                &&& forall|j: int| 0 <= j < s.len() ==> now - (#[trigger] s[j]).0 <= WINDOW_NANOS
            }),
            old(self).wf() ==> ({
                let k = first_series_named(final(self).series_list(), name@);
                &&& k < final(self).series_list().len()
                &&& forall|j: int| 0 <= j < final(self).series_list().len()
                    ==> (#[trigger] final(self).series_list()[j].name_text() == name@ <==> j == k)
            }),
            final(self).frame_times() == old(self).frame_times(),
            final(self).frame_count() == old(self).frame_count(),
            ({
                let i = first_series_named(old(self).series_list(), name@);
                if i < old(self).series_list().len() {
                    &&& final(self).series_list().len() == old(self).series_list().len()
                    &&& forall|j: int| 0 <= j < old(self).series_list().len() && j != i
                        ==> #[trigger] final(self).series_list()[j] == old(self).series_list()[j]
                    &&& final(self).series_list()[i].name_text() == old(self).series_list()[i].name_text()
                    &&& final(self).series_list()[i].sample_seq() == pruned(
                        old(self).series_list()[i].sample_seq().push((now, d)),
                        now,
                    )
                } else {
                    &&& final(self).series_list().len() == old(self).series_list().len() + 1
                    &&& final(self).series_list().drop_last() == old(self).series_list()
                    &&& final(self).series_list().last().name_text() == name@
                    &&& final(self).series_list().last().sample_seq() == seq![(now, d)]
                }
            }),
    {
        let key = name.to_owned();
        let ghost latest0 = self.latest;
        let mut series: Vec<Series> = Vec::new();
        std::mem::swap(&mut series, &mut self.series);
        let ghost all = series@;
        assert(all == old(self).series@);
        let n = series.len();
        let mut i: usize = 0;
        let mut found = false;
        assert(all.skip(0) =~= all);
        while i < n
            invariant_except_break
                n == all.len(),
                i <= n,
                first_series_named(all, name@) == i + first_series_named(all.skip(i as int), name@),
                key@ == name@,
                series@ == all,
                !found,
            ensures
                found ==> i < n && first_series_named(all, name@) == i && all[i as int].name_text() == name@,
                !found ==> first_series_named(all, name@) == n && series@ == all,
            decreases n - i,
        {
            assert(all.skip(i as int).drop_first() =~= all.skip(i + 1));
            if series[i].name == key {
                found = true;
                break;
            }
            i = i + 1;
        }
        if found {
            let mut one = series.remove(i);
            one.push(now, d);
            series.insert(i, one);
            assert forall|j: int| 0 <= j < all.len() && j != i implies #[trigger] series@[j] == all[j] by {}
            proof {
                if distinct_series_names(all) {
                    let f = series@;
                    assert forall|a: int| 0 <= a < f.len() implies #[trigger] f[a].name_text() == all[a].name_text() by {}
                    assert(distinct_series_names(f)) by {
                        assert forall|a: int, b: int| 0 <= a < b < f.len()
                            implies #[trigger] f[a].name_text() != #[trigger] f[b].name_text() by {
                            assert(f[a].name_text() == all[a].name_text());
                            assert(f[b].name_text() == all[b].name_text());
                        }
                    }
                    lemma_only_series_named(f, name@, i as int);
                }
                if series_in_time_order(all, latest0) {
                    let f = series@;
                    lemma_pushed_window(all[i as int].sample_seq(), latest0, now, d);
                    assert forall|a: int| 0 <= a < f.len() implies in_time_order(#[trigger] f[a].sample_seq(), now) by {
                        if a != i {
                            assert(in_time_order(all[a].sample_seq(), latest0));
                        }
                    }
                }
            }
        } else {
            assert(all.skip(n as int).len() == 0);
            let mut one = Series::new(key);
            one.push(now, d);
            assert(pruned(seq![(now, d)], now) == seq![(now, d)]);
            assert(Seq::<(u128, u128)>::empty().push((now, d)) =~= seq![(now, d)]);
            series.push(one);
            assert(series@.drop_last() =~= all);
            proof {
                lemma_first_series_named(all, name@);
                if distinct_series_names(all) {
                    let f = series@;
                    assert(distinct_series_names(f)) by {
                        assert forall|a: int, b: int| 0 <= a < b < f.len()
                            implies #[trigger] f[a].name_text() != #[trigger] f[b].name_text() by {
                            assert(f[a] == all[a]);
                            if b < all.len() {
                                assert(f[b] == all[b]);
                            } else {
                                assert(all[a].name_text() != name@);
                            }
                        }
                    }
                    lemma_only_series_named(f, name@, all.len() as int);
                }
                if series_in_time_order(all, latest0) {
                    let f = series@;
                    assert forall|a: int| 0 <= a < f.len() implies in_time_order(#[trigger] f[a].sample_seq(), now) by {
                        if a < all.len() {
                            assert(f[a] == all[a]);
                            assert(in_time_order(all[a].sample_seq(), latest0));
                        }
                    }
                }
            }
        }
        self.series = series;
        self.latest = now;
    }

    /// The timing series, in the order they were first recorded.
    pub fn series(&self) -> (r: &[Series])
        ensures
            r@ == self.series_list(),
    {
        self.series.as_slice()
    }
}

/// The position of the first series named `name`, or the number of series
/// when there is none.
pub open spec fn first_series_named(series: Seq<Series>, name: Seq<char>) -> int
    decreases series.len(),
{
    if series.len() == 0 {
        0
    } else if series[0].name_text() == name {
        0
    } else {
        1 + first_series_named(series.drop_first(), name)
    }
}

/// No two of `series` share a name.
pub open spec fn distinct_series_names(series: Seq<Series>) -> bool {
    forall|i: int, j: int|
        0 <= i < j < series.len() ==> #[trigger] series[i].name_text() != #[trigger] series[j].name_text()
}

/// `first_series_named` finds the first series with the name, or none.
proof fn lemma_first_series_named(series: Seq<Series>, name: Seq<char>)
    ensures
        0 <= first_series_named(series, name) <= series.len(),
        first_series_named(series, name) < series.len()
            ==> series[first_series_named(series, name)].name_text() == name,
        forall|j: int| 0 <= j < first_series_named(series, name) ==> #[trigger] series[j].name_text() != name,
    decreases series.len(),
{
    if series.len() > 0 && series[0].name_text() != name {
        lemma_first_series_named(series.drop_first(), name);
        assert forall|j: int| 0 <= j < first_series_named(series, name) implies #[trigger] series[j].name_text() != name by {
            if j > 0 {
                assert(series[j] == series.drop_first()[j - 1]);
            }
        }
    }
}

/// Among series with distinct names, the one named `name` at `i` is the
/// first and only series with that name.
proof fn lemma_only_series_named(series: Seq<Series>, name: Seq<char>, i: int)
    requires
        distinct_series_names(series),
        0 <= i < series.len(),
        series[i].name_text() == name,
    ensures
        first_series_named(series, name) == i,
        forall|j: int| 0 <= j < series.len() ==> (#[trigger] series[j].name_text() == name <==> j == i),
{
    lemma_first_series_named(series, name);
    let k = first_series_named(series, name);
    if k != i {
        if k < i {
            assert(series[k].name_text() != series[i].name_text());
        }
    }
    assert forall|j: int| 0 <= j < series.len() implies (#[trigger] series[j].name_text() == name <==> j == i) by {
        if j < i {
            assert(series[j].name_text() != series[i].name_text());
        } else if j > i {
            assert(series[i].name_text() != series[j].name_text());
        }
    }
}

/// The samples of every series are in time order, none later than `latest`.
pub open spec fn series_in_time_order(series: Seq<Series>, latest: u128) -> bool {
    forall|i: int| 0 <= i < series.len() ==> in_time_order(#[trigger] series[i].sample_seq(), latest)
}

/// Adding a sample taken at `now`, no earlier than every sample so far, and
/// pruning keeps the samples in time order and within the window, the new
/// sample last.
proof fn lemma_pushed_window(samples: Seq<(u128, u128)>, latest: u128, now: u128, d: u128)
    requires
        in_time_order(samples, latest),
        latest <= now,
    ensures
        ({
            let p = pruned(samples.push((now, d)), now);
            &&& p.len() >= 1
            &&& p.last() == (now, d)
            &&& in_time_order(p, now)
            &&& forall|j: int| 0 <= j < p.len() ==> now - (#[trigger] p[j]).0 <= WINDOW_NANOS
        }),
{
    let t = samples.push((now, d));
    assert(in_time_order(t, now)) by {
        assert forall|i: int, j: int| 0 <= i <= j < t.len() implies t[i].0 <= t[j].0 by {
            if j < samples.len() {
                assert(t[i] == samples[i] && t[j] == samples[j]);
            } else if i < samples.len() {
                assert(t[i] == samples[i]);
                assert(samples[i].0 <= latest);
            }
        }
        assert forall|i: int| 0 <= i < t.len() implies #[trigger] t[i].0 <= now by {
            if i < samples.len() {
                assert(t[i] == samples[i]);
                assert(samples[i].0 <= latest);
            }
        }
    }
    lemma_pruned_window(t, now);
    lemma_pruned_keeps_newest(samples, now, d);
    let p = pruned(t, now);
    let m = t.len() - p.len();
    assert(in_time_order(p, now)) by {
        assert forall|i: int, j: int| 0 <= i <= j < p.len() implies p[i].0 <= p[j].0 by {
            assert(p[i] == t[i + m] && p[j] == t[j + m]);
        }
        assert forall|i: int| 0 <= i < p.len() implies #[trigger] p[i].0 <= now by {
            assert(p[i] == t[i + m]);
        }
    }
}

} // verus!
