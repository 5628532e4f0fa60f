use sina_quotes::client::{
    cache_window, compute_cache_window, market_hours_fresh, infer_market_hours_category, series_key, ClientBuilder, ClientConfig,
};
use sina_quotes::Duration;

#[test]
fn test_compute_cache_window_ids() {
    let duration = Duration::minutes(1);
    let dur_ns = (duration.as_secs() as i64) * 1_000_000_000;
    let now_ns = 100 * dur_ns + 123;
    let (start_id, end_id) = compute_cache_window(duration, 3, now_ns);
    assert_eq!(start_id, 98);
    assert_eq!(end_id, 101);
}

#[test]
fn cache_window_empty_cases() {
    assert_eq!(compute_cache_window(Duration::minutes(1), 0, 1_000), (0, 0));
    assert_eq!(compute_cache_window(Duration { ns: 10 }, 5, 1_000), (0, 0));
    assert_eq!(compute_cache_window(Duration::minutes(1), 2, -1), (-2, 0));
}

#[test]
fn market_hours_category_by_prefix() {
    assert_eq!(infer_market_hours_category("  hf_FEF "), "hf");
    assert_eq!(infer_market_hours_category("SC0"), "nf");
    assert_eq!(infer_market_hours_category("nf_SC0"), "nf");
}

#[test]
fn series_keys() {
    assert_eq!(series_key("hf_CL", Duration::minutes(5)), "hf_CL_300");
}

#[test]
fn test_builder() {
    let config = ClientBuilder::new()
        .http_timeout(Duration::secs(5))
        .default_data_length(200)
        .market_hours_cache_ttl(Duration::secs(42))
        .into_config();
    assert_eq!(config.default_data_length, 200);
    assert_eq!(config.market_hours_cache_ttl, Duration::secs(42));
    assert_eq!(config.http_timeout, Duration::secs(5));
}

#[test]
fn default_config_values() {
    let c = ClientConfig::default();
    assert_eq!(c.http_timeout, Duration::secs(10));
    assert_eq!(c.ws_reconnect_delay, Duration::secs(2));
    assert_eq!(c.max_reconnect_attempts, 5);
    assert!(c.cache_dir.is_none());
    assert_eq!(c.cache_capacity, 100 * 1024 * 1024);
    assert_eq!(c.default_data_length, 100);
    assert_eq!(c.market_hours_cache_ttl, Duration::secs(6 * 60 * 60));
    let d = ClientConfig::default();
    let b = ClientBuilder::default()
        .max_reconnect_attempts(9)
        .cache_capacity(7)
        .ws_reconnect_delay(Duration::secs(1))
        .cache_dir(std::path::PathBuf::from("/tmp/x"))
        .into_config();
    assert_eq!(b.max_reconnect_attempts, 9);
    assert_eq!(b.cache_capacity, 7);
    assert_eq!(b.cache_dir, Some(std::path::PathBuf::from("/tmp/x")));
    assert_eq!(b.ws_reconnect_delay, Duration::secs(1));
    assert_eq!(b.http_timeout, d.http_timeout);
    assert_eq!(b.market_hours_cache_ttl, d.market_hours_cache_ttl);
}

#[test]
fn cache_window_checks_the_i64_range() {
    assert_eq!(cache_window(Duration::minutes(1), 3, 180_000_000_000), Some(compute_cache_window(Duration::minutes(1), 3, 180_000_000_000)));
    assert_eq!(cache_window(Duration::minutes(1), 3, 180_000_000_000), Some((1, 4)));
    assert_eq!(cache_window(Duration::secs(10_000_000_000), 1, 0), None);
    assert_eq!(cache_window(Duration::secs(1), usize::MAX / 2 + 10, 1_000_000_000_000_000_000), None);
}

#[test]
fn market_hours_freshness() {
    let ttl = ClientConfig::default().market_hours_cache_ttl;
    assert!(market_hours_fresh(0, ttl));
    assert!(market_hours_fresh(6 * 3600 * 1_000_000_000 - 1, ttl));
    assert!(!market_hours_fresh(6 * 3600 * 1_000_000_000, ttl));
}
