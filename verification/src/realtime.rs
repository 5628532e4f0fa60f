//! Bucketing of live quotes into kline bars.
//!
//! A quote falls in bucket `floor(timestamp / period)`. The clock keeps the
//! bucket of the bar being formed and tells, for each quote, whether it opens
//! the first bar, updates the current one, completes it and opens a later
//! one, or is too old to count.

use vstd::prelude::*;

use crate::data::types::Duration;

verus! {

/// What a quote does to the bar being formed.
#[derive(Debug, Clone, Copy, PartialEq, Eq, Structural)]
pub enum BucketStep {
    /// The period is under one second; quotes are not aggregated.
    NoPeriod,
    /// The quote is older than the bar being formed and is dropped.
    Stale,
    /// The first quote opens bar `bucket_id`, which starts at `start_ns`.
    Open { bucket_id: i64, start_ns: i64 },
    /// The quote updates the bar being formed, `bucket_id`.
    Same { bucket_id: i64 },
    /// The quote completes bar `completed_id` and opens bar `bucket_id`,
    /// which starts at `start_ns`.
    Roll { completed_id: i64, bucket_id: i64, start_ns: i64 },
}

/// The period in whole seconds.
pub open spec fn period_secs(duration: Duration) -> int {
    (duration.ns / 1_000_000_000) as int
}

/// The bucket of quote time `timestamp` (seconds).
pub open spec fn bucket_of(duration: Duration, timestamp: i64) -> int {
    timestamp as int / period_secs(duration)
}

/// The start, in nanoseconds, of the bucket of `timestamp` fits in an `i64`.
pub open spec fn bucket_start_fits(duration: Duration, timestamp: i64) -> bool {
    period_secs(duration) > 0 ==> i64::MIN <= bucket_of(duration, timestamp) * period_secs(duration)
        * 1_000_000_000 <= i64::MAX
}

/// Whether a quote at `timestamp` opens a bar (the first one, or one after
/// the bar being formed `current`), so that the bar's start is computed.
pub open spec fn opens_bucket(duration: Duration, current: Option<i64>, timestamp: i64) -> bool {
    period_secs(duration) > 0 && match current {
        None => true,
        Some(c) => bucket_of(duration, timestamp) > c,
    }
}

/// The step a quote at `timestamp` takes when the bar being formed is
/// `current` (none before the first quote).
pub open spec fn bucket_step_spec(duration: Duration, current: Option<i64>, timestamp: i64) -> BucketStep {
    if period_secs(duration) <= 0 {
        BucketStep::NoPeriod
    } else {
        let b = bucket_of(duration, timestamp);
        let start = b * period_secs(duration) * 1_000_000_000;
        match current {
            None => BucketStep::Open { bucket_id: b as i64, start_ns: start as i64 },
            Some(c) => if b < c {
                BucketStep::Stale
            } else if b == c {
                BucketStep::Same { bucket_id: c }
            } else {
                BucketStep::Roll { completed_id: c, bucket_id: b as i64, start_ns: start as i64 }
            },
        }
    }
}

/// The bucket of the bar being formed by a live aggregator.
#[derive(Debug, Clone, Copy)]
pub struct BucketClock {
    duration: Duration,
    current: Option<i64>,
}

impl BucketClock {
    /// The period.
    pub closed spec fn spec_duration(&self) -> Duration {
        self.duration
    }

    /// The bucket of the bar being formed, if any.
    pub closed spec fn spec_current(&self) -> Option<i64> {
        self.current
    }

    /// A clock with no bar yet.
    pub fn new(duration: Duration) -> (c: BucketClock)
        ensures
            c.spec_duration() == duration,
            c.spec_current() is None,
    {
        BucketClock { duration, current: None }
    }

    /// Continues from an existing bar, whose bucket becomes the current one.
    pub fn seed(&mut self, bar_id: i64)
        ensures
            final(self).spec_current() == Some(bar_id),
            final(self).spec_duration() == old(self).spec_duration(),
    {
        self.current = Some(bar_id);
    }

    /// The bucket of the bar being formed.
    pub fn current(&self) -> (c: Option<i64>)
        ensures
            c == self.spec_current(),
    {
        self.current
    }

    /// Takes the time of a quote and says what it does to the bar being
    /// formed; a quote that opens or moves to a bucket makes it current.
    pub fn on_quote_time(&mut self, timestamp: i64) -> (step: BucketStep)
        requires
            opens_bucket(old(self).spec_duration(), old(self).spec_current(), timestamp)
                ==> bucket_start_fits(old(self).spec_duration(), timestamp),
        ensures
            step == bucket_step_spec(old(self).spec_duration(), old(self).spec_current(), timestamp),
            final(self).spec_duration() == old(self).spec_duration(),
            step matches BucketStep::Open { bucket_id, .. } ==> final(self).spec_current() == Some(bucket_id),
            step matches BucketStep::Roll { bucket_id, .. } ==> final(self).spec_current() == Some(bucket_id),
            !(step is Open) && !(step is Roll) ==> final(self).spec_current() == old(self).spec_current(),
    {
        let secs = self.duration.as_secs();
        if secs == 0 {
            return BucketStep::NoPeriod;
        }
        let dur_secs = secs as i64;
        proof {
            assert(secs <= u64::MAX / 1_000_000_000);
            let x = timestamp as int;
            let dd = dur_secs as int;
            assert(i64::MIN <= x / dd <= i64::MAX) by (nonlinear_arith)
                requires
                    dd >= 1,
                    i64::MIN <= x <= i64::MAX,
            {
                if x >= 0 {
                    assert(x / dd <= x);
                    assert(x / dd >= 0);
                } else {
                    assert(x / dd >= x);
                    assert(x / dd < 0);
                }
            }
        }
        let bucket_id = match timestamp.checked_div_euclid(dur_secs) {
            Some(q) => q,
            None => 0,
        };
        proof {
            assert(bucket_id as int == bucket_of(self.duration, timestamp));
        }
        match self.current {
            None => {
                let start_ns = self.start_of(bucket_id, dur_secs, timestamp);
                self.current = Some(bucket_id);
                BucketStep::Open { bucket_id, start_ns }
            },
            Some(c) => {
                if bucket_id < c {
                    BucketStep::Stale
                } else if bucket_id == c {
                    BucketStep::Same { bucket_id: c }
                } else {
                    let start_ns = self.start_of(bucket_id, dur_secs, timestamp);
                    self.current = Some(bucket_id);
                    BucketStep::Roll { completed_id: c, bucket_id, start_ns }
                }
            },
        }
    }

    /// The start in nanoseconds of bucket `bucket_id`, the bucket of `timestamp`.
    fn start_of(&self, bucket_id: i64, dur_secs: i64, timestamp: i64) -> (start_ns: i64)
        requires
            dur_secs as int == period_secs(self.spec_duration()),
            dur_secs >= 1,
            bucket_id as int == bucket_of(self.spec_duration(), timestamp),
            bucket_start_fits(self.spec_duration(), timestamp),
        ensures
            start_ns == bucket_id * dur_secs * 1_000_000_000,
    {
        proof {
            let b = bucket_id as int;
            let d = dur_secs as int;
            assert(i64::MIN <= b * d * 1_000_000_000 <= i64::MAX);
            assert(i64::MIN <= b * d <= i64::MAX) by (nonlinear_arith)
                requires
                    i64::MIN <= b * d * 1_000_000_000 <= i64::MAX,
            {
            }
        }
        bucket_id * dur_secs * 1_000_000_000
    }
}

/// The current bucket of a clock never moves back.
pub proof fn lemma_clock_monotone(duration: Duration, current: Option<i64>, timestamp: i64)
    requires
        period_secs(duration) > 0,
    ensures
        match bucket_step_spec(duration, current, timestamp) {
            BucketStep::Roll { completed_id, bucket_id, .. } => completed_id < bucket_id,
            BucketStep::Same { bucket_id } => current == Some(bucket_id),
            BucketStep::Stale => current is Some,
            BucketStep::Open { .. } => current is None,
            BucketStep::NoPeriod => false,
        },
{
    let x = timestamp as int;
    let dd = period_secs(duration);
    assert(i64::MIN <= x / dd <= i64::MAX) by (nonlinear_arith)
        requires
            dd >= 1,
            i64::MIN <= x <= i64::MAX,
    {
        if x >= 0 {
            assert(x / dd <= x);
            assert(x / dd >= 0);
        } else {
            assert(x / dd >= x);
            assert(x / dd < 0);
        }
    }
}

} // verus!
