use sina_quotes::data::types::{
    render_market_hours, FuturesCategory, FuturesMarketHours, TradingSession, NANOS_PER_SEC,
};
use sina_quotes::{version, Duration, VERSION};

#[test]
fn types_test_duration() {
    let d = Duration::minutes(5);
    assert_eq!(d.as_secs(), 300);
    assert_eq!(d.as_minutes(), 5);

    let d2 = Duration::secs(60);
    assert_eq!(d2.as_secs(), 60);
}

#[test]
fn lib_test_duration() {
    let d = Duration::minutes(5);
    assert_eq!(d.as_secs(), 300);
    assert_eq!(d.as_minutes(), 5);
}

#[test]
fn test_version() {
    assert!(!VERSION.is_empty());
    assert_eq!(version(), "0.1.0");
}

#[test]
fn duration_constructors_and_minute_periods() {
    assert_eq!(Duration::hours(2).ns, 2 * 3600 * NANOS_PER_SEC);
    assert_eq!(Duration::days(1).as_secs(), 86_400);
    assert!(Duration::minutes(15).is_minute_period());
    assert!(!Duration::secs(30).is_minute_period());
    assert!(!Duration::days(1).is_minute_period());
    assert_eq!(Duration::default().as_secs(), 300);
    assert_eq!(Duration { ns: 1_500_000_000 }.as_secs(), 1);
}

#[test]
fn futures_category_codes() {
    assert_eq!(FuturesCategory::Hf.as_str(), "hf");
    assert_eq!(FuturesCategory::Nf.as_str(), "nf");
}

#[test]
fn test_render_market_hours_output() {
    let output = render_market_hours(&FuturesMarketHours {
        category: FuturesCategory::Hf,
        symbol: "FEF".to_string(),
        timezone: "summer".to_string(),
        exchange: Some("(SGX)".to_string()),
        interval: None,
        sessions: vec![
            TradingSession { start: "07:25".to_string(), end: "23:59".to_string() },
            TradingSession { start: "00:00".to_string(), end: "05:15".to_string() },
        ],
    });

    assert_eq!(
        output,
        "Category: hf\nSymbol: FEF\nTimezone: summer\nExchange: (SGX)\nSessions:\n  1. 07:25 - 23:59\n  2. 00:00 - 05:15\n"
    );
}

#[test]
fn duration_text_units() {
    assert_eq!(Duration::minutes(5).to_text(), "300s");
    assert_eq!(Duration { ns: 1_500_000_000 }.to_text(), "1500ms");
    assert_eq!(Duration { ns: 42 }.to_text(), "42ns");
}
