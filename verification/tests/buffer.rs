use sina_quotes::data::series::SeriesState;
use sina_quotes::{Duration, KlineRingBuffer, RingBuffer};

#[derive(Debug, Clone, PartialEq)]
struct Bar {
    id: i64,
    datetime: i64,
    open: f64,
    high: f64,
    low: f64,
    close: f64,
    volume: f64,
    open_interest: f64,
}

fn make_bar(id: i64, close: f64) -> Bar {
    Bar {
        id,
        datetime: id * 60000000000,
        open: close - 1.0,
        high: close + 1.0,
        low: close - 2.0,
        close,
        volume: 1000.0,
        open_interest: 5000.0,
    }
}

#[test]
fn test_ring_buffer() {
    let mut buf = RingBuffer::new(3);

    buf.push(1);
    buf.push(2);
    buf.push(3);
    assert_eq!(buf.len(), 3);

    buf.push(4);
    assert_eq!(buf.len(), 3);
    assert_eq!(buf.get(0), Some(&2));
    assert_eq!(buf.get(1), Some(&3));
    assert_eq!(buf.get(2), Some(&4));
}

#[test]
fn test_update_last() {
    let mut buf = RingBuffer::new(3);
    buf.push(1);
    buf.push(2);

    buf.update_last(20);
    assert_eq!(buf.last(), Some(&20));
}

#[test]
fn test_kline_buffer() {
    let mut buf = KlineRingBuffer::new(5);

    let b1 = make_bar(1, 100.0);
    let b2 = make_bar(2, 101.0);
    let b3 = make_bar(3, 102.0);
    buf.push(b1.id, b1);
    buf.push(b2.id, b2);
    buf.push(b3.id, b3);

    assert_eq!(buf.last_id(), 3);
    assert_eq!(buf.len(), 3);

    let b3b = make_bar(3, 103.0);
    buf.update_last(b3b.id, b3b);
    assert_eq!(buf.current_bar().unwrap().close, 103.0);
}

#[test]
fn ring_buffer_update_last_on_empty_does_nothing() {
    let mut buf: RingBuffer<i32> = RingBuffer::new(2);
    assert!(!buf.update_last(5));
    assert!(buf.is_empty());
    assert_eq!(buf.last(), None);
}

#[test]
fn ring_buffer_capacity_zero_keeps_nothing() {
    let mut buf = RingBuffer::new(0);
    buf.push(1);
    buf.push(2);
    assert_eq!(buf.len(), 0);
    assert_eq!(buf.last(), None);
    assert_eq!(buf.capacity(), 0);
}

#[test]
fn ring_buffer_recent_and_first() {
    let mut buf = RingBuffer::new(4);
    for i in 1..=6 {
        buf.push(i);
    }
    assert_eq!(buf.first(), Some(&3));
    assert_eq!(buf.recent(2), vec![&5, &6]);
    assert_eq!(buf.recent(10), vec![&3, &4, &5, &6]);
    assert_eq!(buf.to_vec(), vec![&3, &4, &5, &6]);
    assert_eq!(buf.iter().copied().collect::<Vec<_>>(), vec![3, 4, 5, 6]);
    buf.clear();
    assert!(buf.is_empty());
    assert_eq!(buf.capacity(), 4);
}

#[test]
fn ring_buffer_get_mut_and_last_mut() {
    let mut buf = RingBuffer::new(3);
    buf.push(1);
    buf.push(2);
    *buf.get_mut(0).unwrap() = 10;
    *buf.last_mut().unwrap() = 20;
    assert!(buf.get_mut(5).is_none());
    assert_eq!(buf.to_vec(), vec![&10, &20]);
    for x in buf.iter_mut() {
        *x += 1;
    }
    assert_eq!(buf.to_vec(), vec![&11, &21]);
    let mut empty: RingBuffer<i32> = RingBuffer::default();
    assert!(empty.last_mut().is_none());
    assert_eq!(empty.capacity(), 100);
}

#[test]
fn kline_buffer_forming_bar_is_not_complete() {
    let mut buf = KlineRingBuffer::new(10);
    buf.push(1, "a");
    buf.push(2, "b");
    assert_eq!(buf.last_complete(), Some(&"a"));
    assert_eq!(buf.complete_bars(), vec![&"a"]);
    assert_eq!(buf.data(), vec![&"a", &"b"]);
    buf.push(5, "c");
    assert_eq!(buf.last_complete(), Some(&"c"));
    assert_eq!(buf.complete_bars(), vec![&"a", &"b", &"c"]);
    assert!(buf.is_new_bar(6));
    assert!(!buf.is_new_bar(5));
    assert!(!buf.update_last(4, "old"));
    assert_eq!(buf.current_bar(), Some(&"c"));
    assert_eq!(buf.recent(2), vec![&"b", &"c"]);
}

#[test]
fn test_kline_series_basic() {
    let mut series = SeriesState::new("hf_CL".to_string(), Duration::minutes(5), 100);

    for (id, close) in [(1, 100.0), (2, 101.0), (3, 102.0)] {
        series.push(id, make_bar(id, close));
    }

    assert_eq!(series.len(), 3);
    assert_eq!(series.last().unwrap().close, 101.0);
    assert_eq!(series.current().unwrap().close, 102.0);
}

#[test]
fn test_update_current_bar() {
    let mut series = SeriesState::new("hf_CL".to_string(), Duration::minutes(5), 100);

    series.push(1, make_bar(1, 100.0));
    series.push(2, make_bar(2, 101.0));

    series.update_last(2, make_bar(2, 102.0));

    assert_eq!(series.last().unwrap().close, 100.0);
    assert_eq!(series.current().unwrap().close, 102.0);
}

#[test]
fn test_recent() {
    let mut series = SeriesState::new("hf_CL".to_string(), Duration::minutes(5), 10);

    for i in 1..=10 {
        series.push(i, make_bar(i, 100.0 + i as f64));
    }

    let recent = series.recent(3);
    assert_eq!(recent.len(), 3);
    assert_eq!(recent[0].id, 8);
    assert_eq!(recent[2].id, 10);
}

#[test]
fn series_handle_update_appends_new_and_updates_current() {
    let mut series = SeriesState::new("hf_TEST".to_string(), Duration::minutes(1), 3);
    series.handle_update(1, 10);
    series.handle_update(1, 11);
    series.handle_update(2, 20);
    series.handle_update(1, 99);
    assert_eq!(series.read_all(), vec![&11, &20]);
    assert_eq!(series.last_id(), 2);
    series.fill_gap(vec![(3, 30), (4, 40)]);
    assert_eq!(series.read_all(), vec![&20, &30, &40]);
    assert_eq!(series.get(0), Some(&20));
    assert_eq!(series.get(3), None);
    assert_eq!(series.read(), vec![&20, &30]);
    series.clear();
    assert!(series.is_empty());
    assert_eq!(series.capacity(), 3);
    assert_eq!(series.symbol(), "hf_TEST");
    assert_eq!(series.duration().as_secs(), 60);
}

#[test]
fn series_from_bars_keeps_at_least_hundred() {
    let s = SeriesState::from_bars("x".to_string(), Duration::minutes(1), vec![(1, 'a'), (2, 'b')]);
    assert_eq!(s.capacity(), 100);
    assert_eq!(s.read_all(), vec![&'a', &'b']);
    let many: Vec<(i64, i64)> = (0..150).map(|i| (i, i)).collect();
    let s2 = SeriesState::from_bars("x".to_string(), Duration::minutes(1), many);
    assert_eq!(s2.capacity(), 150);
    assert_eq!(s2.len(), 150);
}
