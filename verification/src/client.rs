//! Configuration of the quotes client and the small decisions it makes
//! around the cache: which bucket window a history request covers and under
//! which key a series is kept.

use vstd::prelude::*;

use crate::data::types::Duration;
use crate::text::{
    append_chars, chars_of, decimal, format_u64, has_prefix, starts_with, string_from_chars, trim,
    trim_chars,
};

verus! {

#[verifier::external_type_specification]
#[verifier::external_body]
pub struct ExPathBuf(std::path::PathBuf);

/// `PathBuf::clone`: a path with the same contents.
pub assume_specification[<std::path::PathBuf as Clone>::clone](p: &std::path::PathBuf) -> (r:
    std::path::PathBuf)
    ensures
        r == *p,
;

/// The bucket window `[start_id, end_id)` of the `count` newest buckets of a
/// period of `secs` seconds, ending with the bucket that holds `now_ns`; the
/// empty window `(0, 0)` for no buckets or a period under one second. The
/// count is taken as an `i64`, as the window's ids are.
pub open spec fn cache_window_spec(secs: int, count: usize, now_ns: int) -> (int, int) {
    let dur_ns = secs * 1_000_000_000;
    if count == 0 || dur_ns <= 0 {
        (0, 0)
    } else {
        let end_id = now_ns / dur_ns + 1;
        (end_id - (count as i64) as int, end_id)
    }
}

/// The window of `duration` buckets that `compute_cache_window` returns can
/// be computed in `i64`: the period in nanoseconds and the window's start fit.
pub open spec fn cache_window_fits(duration: Duration, count: usize, now_ns: i64) -> bool {
    &&& (duration.ns / 1_000_000_000) * 1_000_000_000 <= i64::MAX
    &&& i64::MIN <= cache_window_spec((duration.ns / 1_000_000_000) as int, count, now_ns as int).0 <= i64::MAX
}

/// The window of `count` buckets ending with the current one, as
/// `(start_id, end_id)`.
pub fn compute_cache_window(duration: Duration, count: usize, now_ns: i64) -> (w: (i64, i64))
    requires
        cache_window_fits(duration, count, now_ns),
    ensures
        w.0 == cache_window_spec((duration.ns / 1_000_000_000) as int, count, now_ns as int).0,
        w.1 == cache_window_spec((duration.ns / 1_000_000_000) as int, count, now_ns as int).1,
{
    let secs = duration.as_secs();
    let dur_ns = (secs as i64) * 1_000_000_000;
    if count == 0 || dur_ns <= 0 {
        return (0, 0);
    }
    proof {
        assert(dur_ns as int == (duration.ns / 1_000_000_000) * 1_000_000_000);
    }
    let end_id = window_end(now_ns, dur_ns);
    let c: i64 = #[verifier::truncate] (count as i64);
    let start_id = end_id - c;
    (start_id, end_id)
}

/// One past the bucket of `now_ns` at a period of `dur_ns` nanoseconds.
fn window_end(now_ns: i64, dur_ns: i64) -> (e: i64)
    requires
        dur_ns >= 1_000_000_000,
    ensures
        e == now_ns as int / dur_ns as int + 1,
{
    proof {
        let x = now_ns as int;
        let dd = dur_ns as int;
        assert(i64::MIN < x / dd < i64::MAX) by (nonlinear_arith)
            requires
                dd >= 1_000_000_000,
                i64::MIN <= x <= i64::MAX,
        {
            if x >= 0 {
                assert(x / dd <= x / 1_000_000_000);
            } else {
                assert(x / dd >= x);
            }
        }
    }
    let now_bucket_id = match now_ns.checked_div_euclid(dur_ns) {
        Some(q) => q,
        None => 0,
    };
    now_bucket_id + 1
}

/// The cache window when it can be computed in `i64`, else `None`.
pub fn cache_window(duration: Duration, count: usize, now_ns: i64) -> (w: Option<(i64, i64)>)
    ensures
        cache_window_fits(duration, count, now_ns) ==> w == Some((
            cache_window_spec((duration.ns / 1_000_000_000) as int, count, now_ns as int).0 as i64,
            cache_window_spec((duration.ns / 1_000_000_000) as int, count, now_ns as int).1 as i64,
        )),
        !cache_window_fits(duration, count, now_ns) ==> w is None,
{
    let secs = duration.as_secs();
    if secs > 9_223_372_036 {
        proof {
            assert((duration.ns / 1_000_000_000) * 1_000_000_000 > i64::MAX);
        }
        return None;
    }
    if count > 0 && secs > 0 {
        let dur_ns = (secs as i64) * 1_000_000_000;
        proof {
            assert(dur_ns as int == (duration.ns / 1_000_000_000) * 1_000_000_000);
        }
        let end_id = window_end(now_ns, dur_ns);
        let c: i64 = #[verifier::truncate] (count as i64);
        if end_id.checked_sub(c).is_none() {
            return None;
        }
    }
    Some(compute_cache_window(duration, count, now_ns))
}

/// Whether trading hours fetched `age_ns` nanoseconds ago are still fresh
/// when they are kept for `ttl`: strictly younger than `ttl`.
pub fn market_hours_fresh(age_ns: u128, ttl: Duration) -> (b: bool)
    ensures
        b == (age_ns < ttl.ns),
{
    age_ns < ttl.ns as u128
}

/// The market whose trading hours a symbol asks for: `"hf"` for a trimmed
/// symbol that starts with `hf_`, else `"nf"`.
pub open spec fn market_hours_category_spec(symbol: Seq<char>) -> Seq<char> {
    if has_prefix(trim(symbol), seq!['h', 'f', '_']) {
        seq!['h', 'f']
    } else {
        seq!['n', 'f']
    }
}

/// `"hf"` for an international symbol, else `"nf"`.
pub fn infer_market_hours_category(symbol: &str) -> (c: &'static str)
    ensures
        c@ == market_hours_category_spec(symbol@),
{
    proof {
        reveal_strlit("hf");
        reveal_strlit("nf");
    }
    let v = chars_of(symbol);
    let t = trim_chars(v.as_slice());
    let prefix = ['h', 'f', '_'];
    if starts_with(t.as_slice(), prefix.as_slice()) {
        "hf"
    } else {
        "nf"
    }
}

/// The key a kline series is kept under: `"<symbol>_<seconds>"`.
pub open spec fn series_key_spec(symbol: Seq<char>, duration: Duration) -> Seq<char> {
    symbol + seq!['_'] + decimal((duration.ns / 1_000_000_000) as nat)
}

/// `"<symbol>_<seconds>"`.
pub fn series_key(symbol: &str, duration: Duration) -> (key: String)
    ensures
        key@ == series_key_spec(symbol@, duration),
{
    let mut v = chars_of(symbol);
    v.push('_');
    let d = format_u64(duration.as_secs());
    append_chars(&mut v, d.as_slice());
    proof {
        assert(v@ =~= series_key_spec(symbol@, duration));
    }
    string_from_chars(v.as_slice())
}

/// Settings of the quotes client.
#[derive(Debug, Clone)]
pub struct ClientConfig {
    /// Timeout of one HTTP request.
    pub http_timeout: Duration,
    /// Pause before a websocket reconnect.
    pub ws_reconnect_delay: Duration,
    /// Reconnects tried before giving up.
    pub max_reconnect_attempts: u32,
    /// Where the history cache lives; no cache when absent.
    pub cache_dir: Option<std::path::PathBuf>,
    /// Byte budget of the history cache.
    pub cache_capacity: usize,
    /// Default number of bars of a kline series.
    pub default_data_length: usize,
    /// How long fetched trading hours stay fresh.
    pub market_hours_cache_ttl: Duration,
}

/// The settings a client starts from: a ten-second HTTP timeout, a
/// two-second reconnect delay, five reconnects, no cache directory, a 100 MiB
/// cache budget, series of 100 bars and trading hours kept for six hours.
pub open spec fn default_settings(c: ClientConfig) -> bool {
    &&& c.http_timeout.ns == 10 * 1_000_000_000
    &&& c.ws_reconnect_delay.ns == 2 * 1_000_000_000
    &&& c.market_hours_cache_ttl.ns == 6 * 60 * 60 * 1_000_000_000
    &&& c.max_reconnect_attempts == 5
    &&& c.cache_dir is None
    &&& c.cache_capacity == 100 * 1024 * 1024
    &&& c.default_data_length == 100
}

impl Default for ClientConfig {
    /// The settings of `default_settings`.
    fn default() -> (c: ClientConfig)
        ensures
            default_settings(c),
    {
        ClientConfig {
            http_timeout: Duration::secs(10),
            ws_reconnect_delay: Duration::secs(2),
            max_reconnect_attempts: 5,
            cache_dir: None,
            cache_capacity: 100 * 1024 * 1024,
            default_data_length: 100,
            market_hours_cache_ttl: Duration::secs(6 * 60 * 60),
        }
    }
}

/// Builds a `ClientConfig` one setting at a time.
pub struct ClientBuilder {
    config: ClientConfig,
}

impl ClientBuilder {
    /// The settings built so far.
    pub closed spec fn spec_config(&self) -> ClientConfig {
        self.config
    }

    /// A builder holding the default settings.
    pub fn new() -> (b: ClientBuilder)
        ensures
            default_settings(b.spec_config()),
    {
        ClientBuilder { config: ClientConfig::default() }
    }

    /// Sets the HTTP timeout.
    pub fn http_timeout(self, timeout: Duration) -> (b: ClientBuilder)
        ensures
            b.spec_config() == (ClientConfig { http_timeout: timeout, ..self.spec_config() }),
    {
        let mut b = self;
        b.config.http_timeout = timeout;
        b
    }

    /// Sets the websocket reconnect delay.
    pub fn ws_reconnect_delay(self, delay: Duration) -> (b: ClientBuilder)
        ensures
            b.spec_config() == (ClientConfig { ws_reconnect_delay: delay, ..self.spec_config() }),
    {
        let mut b = self;
        b.config.ws_reconnect_delay = delay;
        b
    }

    /// Sets how many reconnects are tried.
    pub fn max_reconnect_attempts(self, attempts: u32) -> (b: ClientBuilder)
        ensures
            b.spec_config() == (ClientConfig {
                max_reconnect_attempts: attempts,
                ..self.spec_config()
            }),
    {
        let mut b = self;
        b.config.max_reconnect_attempts = attempts;
        b
    }

    /// Sets the cache directory.
    pub fn cache_dir(self, path: std::path::PathBuf) -> (b: ClientBuilder)
        ensures
            b.spec_config() == (ClientConfig { cache_dir: Some(path), ..self.spec_config() }),
    {
        let mut b = self;
        b.config.cache_dir = Some(path);
        b
    }

    /// Sets the cache byte budget.
    pub fn cache_capacity(self, capacity: usize) -> (b: ClientBuilder)
        ensures
            b.spec_config() == (ClientConfig { cache_capacity: capacity, ..self.spec_config() }),
    {
        let mut b = self;
        b.config.cache_capacity = capacity;
        b
    }

    /// Sets the default series length.
    pub fn default_data_length(self, length: usize) -> (b: ClientBuilder)
        ensures
            b.spec_config() == (ClientConfig { default_data_length: length, ..self.spec_config() }),
    {
        let mut b = self;
        b.config.default_data_length = length;
        b
    }

    /// Sets how long fetched trading hours stay fresh.
    pub fn market_hours_cache_ttl(self, ttl: Duration) -> (b: ClientBuilder)
        ensures
            b.spec_config() == (ClientConfig { market_hours_cache_ttl: ttl, ..self.spec_config() }),
    {
        let mut b = self;
        b.config.market_hours_cache_ttl = ttl;
        b
    }

    /// The finished settings.
    pub fn into_config(self) -> (c: ClientConfig)
        ensures
            c == self.spec_config(),
    {
        self.config
    }
}

impl Default for ClientBuilder {
    /// Same as `ClientBuilder::new`.
    fn default() -> (b: ClientBuilder)
        ensures
            default_settings(b.spec_config()),
    {
        ClientBuilder::new()
    }
}

} // verus!
