use sina_quotes::realtime::{BucketClock, BucketStep};
use sina_quotes::Duration;

#[test]
fn bucket_rollover_completes_and_opens() {
    let mut clock = BucketClock::new(Duration::minutes(1));
    assert_eq!(clock.on_quote_time(60), BucketStep::Open { bucket_id: 1, start_ns: 60_000_000_000 });
    assert_eq!(clock.on_quote_time(61), BucketStep::Same { bucket_id: 1 });
    assert_eq!(
        clock.on_quote_time(120),
        BucketStep::Roll { completed_id: 1, bucket_id: 2, start_ns: 120_000_000_000 }
    );
    assert_eq!(clock.on_quote_time(119), BucketStep::Stale);
    assert_eq!(clock.current(), Some(2));
}

#[test]
fn seeded_clock_updates_same_bucket() {
    let mut clock = BucketClock::new(Duration::minutes(1));
    clock.seed(10);
    assert_eq!(clock.on_quote_time(10 * 60 + 1), BucketStep::Same { bucket_id: 10 });
}

#[test]
fn sub_second_period_aggregates_nothing() {
    let mut clock = BucketClock::new(Duration { ns: 500 });
    assert_eq!(clock.on_quote_time(60), BucketStep::NoPeriod);
    assert_eq!(clock.current(), None);
}

#[test]
fn stale_quote_far_in_the_past_is_dropped() {
    let mut clock = BucketClock::new(Duration::minutes(1));
    clock.seed(10);
    // Its bucket start would not fit in nanoseconds, but a stale quote is
    // dropped before any start is computed.
    assert_eq!(clock.on_quote_time(i64::MIN), BucketStep::Stale);
    assert_eq!(clock.current(), Some(10));
}
