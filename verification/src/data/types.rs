//! Basic market-data types: kline periods and futures trading hours.

use vstd::prelude::*;

use crate::text::{append_chars, append_str, decimal, format_u64, string_from_chars};

verus! {

/// Nanoseconds in one second.
pub const NANOS_PER_SEC: u64 = 1_000_000_000;

/// A kline period, held in nanoseconds.
#[derive(Debug, Clone, Copy, PartialEq, Eq, Hash, Structural)]
pub struct Duration {
    pub ns: u64,
}

impl Duration {
    /// `n` seconds.
    pub fn secs(n: u64) -> (d: Duration)
        requires
            n * 1_000_000_000 <= u64::MAX,
        ensures
            d.ns == n * 1_000_000_000,
    {
        Duration { ns: n * NANOS_PER_SEC }
    }

    /// `n` minutes.
    pub fn minutes(n: u64) -> (d: Duration)
        requires
            n * 60_000_000_000 <= u64::MAX,
        ensures
            d.ns == n * 60_000_000_000,
    {
        Self::secs(n * 60)
    }

    /// `n` hours.
    pub fn hours(n: u64) -> (d: Duration)
        requires
            n * 3_600_000_000_000 <= u64::MAX,
        ensures
            d.ns == n * 3_600_000_000_000,
    {
        Self::minutes(n * 60)
    }

    /// `n` days.
    pub fn days(n: u64) -> (d: Duration)
        requires
            n * 86_400_000_000_000 <= u64::MAX,
        ensures
            d.ns == n * 86_400_000_000_000,
    {
        Self::hours(n * 24)
    }

    /// Whole seconds in the period (rounded down).
    pub fn as_secs(&self) -> (s: u64)
        ensures
            s == self.ns / 1_000_000_000,
    {
        self.ns / NANOS_PER_SEC
    }

    /// Whole minutes in the period (rounded down).
    pub fn as_minutes(&self) -> (m: u64)
        ensures
            m == self.ns / 1_000_000_000 / 60,
    {
        self.as_secs() / 60
    }

    /// Whether the period is a positive whole number of minutes below one day.
    pub fn is_minute_period(&self) -> (b: bool)
        ensures
            b == {
                let secs = self.ns / 1_000_000_000;
                secs > 0 && secs % 60 == 0 && secs < 86_400
            },
    {
        let secs = self.as_secs();
        secs > 0 && secs % 60 == 0 && secs < 86_400
    }
}

impl Duration {
    /// How a period reads: whole seconds as `"<n>s"`, else whole
    /// milliseconds as `"<n>ms"`, else `"<n>ns"`.
    pub open spec fn text_spec(self) -> Seq<char> {
        if self.ns % 1_000_000_000 == 0 {
            decimal((self.ns / 1_000_000_000) as nat) + seq!['s']
        } else if self.ns % 1_000_000 == 0 {
            decimal((self.ns / 1_000_000) as nat) + seq!['m', 's']
        } else {
            decimal(self.ns as nat) + seq!['n', 's']
        }
    }

    /// The period as text, in the largest of seconds, milliseconds and
    /// nanoseconds that divides it.
    pub fn to_text(&self) -> (t: String)
        ensures
            t@ == self.text_spec(),
    {
        let mut v: Vec<char>;
        if self.ns % NANOS_PER_SEC == 0 {
            v = format_u64(self.ns / NANOS_PER_SEC);
            v.push('s');
        } else if self.ns % 1_000_000 == 0 {
            v = format_u64(self.ns / 1_000_000);
            v.push('m');
            v.push('s');
        } else {
            v = format_u64(self.ns);
            v.push('n');
            v.push('s');
        }
        string_from_chars(v.as_slice())
    }
}

impl Default for Duration {
    /// Five minutes.
    fn default() -> (d: Duration)
        ensures
            d.ns == 300_000_000_000,
    {
        Self::minutes(5)
    }
}

/// Converting minutes back from a period built in minutes gives the same count.
pub proof fn lemma_minutes_roundtrip(n: u64)
    requires
        n * 60_000_000_000 <= u64::MAX,
    ensures
        ((n * 60_000_000_000) as u64) / 1_000_000_000 / 60 == n,
        ((n * 60_000_000_000) as u64) / 1_000_000_000 == n * 60,
{
    assert((n * 60_000_000_000) / 1_000_000_000 == n * 60) by (nonlinear_arith);
    assert((n * 60) / 60 == n) by (nonlinear_arith);
}


/// The two futures markets Sina serves trading hours for: international
/// (`hf`) and domestic (`nf`).
#[derive(Debug, Clone, Copy, PartialEq, Eq, Hash, Structural)]
pub enum FuturesCategory {
    Hf,
    Nf,
}

impl FuturesCategory {
    /// The market's code as used in Sina URLs and symbols.
    pub open spec fn spec_as_str(self) -> Seq<char> {
        match self {
            FuturesCategory::Hf => seq!['h', 'f'],
            FuturesCategory::Nf => seq!['n', 'f'],
        }
    }

    /// `"hf"` or `"nf"`.
    pub fn as_str(&self) -> (s: &'static str)
        ensures
            s@ == self.spec_as_str(),
    {
        proof {
            reveal_strlit("hf");
            reveal_strlit("nf");
        }
        match self {
            FuturesCategory::Hf => "hf",
            FuturesCategory::Nf => "nf",
        }
    }
}

/// One trading session, as `"HH:MM"` start and end times.
#[derive(Debug, Clone, PartialEq, Eq)]
pub struct TradingSession {
    pub start: String,
    pub end: String,
}

/// The trading hours of one futures contract.
#[derive(Debug, Clone, PartialEq, Eq)]
pub struct FuturesMarketHours {
    pub category: FuturesCategory,
    pub symbol: String,
    pub timezone: String,
    pub exchange: Option<String>,
    pub interval: Option<String>,
    pub sessions: Vec<TradingSession>,
}

/// The line of session number `n` (counted from 1): `"  <n>. <start> - <end>"`.
pub open spec fn session_line(n: nat, s: TradingSession) -> Seq<char> {
    "  "@ + decimal(n) + ". "@ + s.start@ + " - "@ + s.end@ + seq!['\n']
}

/// The session lines of `sessions`, numbered from 1.
pub open spec fn session_lines(sessions: Seq<TradingSession>) -> Seq<char>
    decreases sessions.len(),
{
    if sessions.len() == 0 {
        Seq::empty()
    } else {
        session_lines(sessions.drop_last()) + session_line(sessions.len(), sessions.last())
    }
}

/// The text of an optional field: `"<label><value>\n"`, or nothing.
pub open spec fn optional_line(label: Seq<char>, value: Option<String>) -> Seq<char> {
    match value {
        Some(v) => label + v@ + seq!['\n'],
        None => Seq::empty(),
    }
}

/// Trading hours as the command line prints them: category, symbol and
/// timezone, the exchange and interval when known, then one numbered line
/// per session.
pub open spec fn render_market_hours_spec(m: FuturesMarketHours) -> Seq<char> {
    "Category: "@ + m.category.spec_as_str() + seq!['\n'] + "Symbol: "@ + m.symbol@ + seq!['\n']
        + "Timezone: "@ + m.timezone@ + seq!['\n'] + optional_line("Exchange: "@, m.exchange)
        + optional_line("Interval: "@, m.interval) + "Sessions:\n"@ + session_lines(m.sessions@)
}

/// The printed form of trading hours.
pub fn render_market_hours(m: &FuturesMarketHours) -> (out: String)
    ensures
        out@ == render_market_hours_spec(*m),
{
    let mut v: Vec<char> = Vec::new();
    append_str(&mut v, "Category: ");
    append_str(&mut v, m.category.as_str());
    v.push('\n');
    append_str(&mut v, "Symbol: ");
    append_str(&mut v, m.symbol.as_str());
    v.push('\n');
    append_str(&mut v, "Timezone: ");
    append_str(&mut v, m.timezone.as_str());
    v.push('\n');
    let ghost head = v@;
    match &m.exchange {
        Some(e) => {
            append_str(&mut v, "Exchange: ");
            append_str(&mut v, e.as_str());
            v.push('\n');
        },
        None => {},
    }
    proof {
        assert(v@ =~= head + optional_line("Exchange: "@, m.exchange));
    }
    let ghost head2 = v@;
    match &m.interval {
        Some(i) => {
            append_str(&mut v, "Interval: ");
            append_str(&mut v, i.as_str());
            v.push('\n');
        },
        None => {},
    }
    proof {
        assert(v@ =~= head2 + optional_line("Interval: "@, m.interval));
    }
    append_str(&mut v, "Sessions:\n");
    let ghost base = v@;
    let n = m.sessions.len();
    let mut k: usize = 0;
    proof {
        assert(m.sessions@.take(0) =~= Seq::<TradingSession>::empty());
        assert(v@ =~= base + session_lines(m.sessions@.take(0)));
    }
    while k < n
        invariant
            n == m.sessions@.len(),
            k <= n,
            v@ == base + session_lines(m.sessions@.take(k as int)),
        decreases n - k,
    {
        let s = &m.sessions[k];
        let ghost before = v@;
        append_str(&mut v, "  ");
        let num = format_u64((k as u64) + 1);
        append_chars(&mut v, num.as_slice());
        append_str(&mut v, ". ");
        append_str(&mut v, s.start.as_str());
        append_str(&mut v, " - ");
        append_str(&mut v, s.end.as_str());
        v.push('\n');
        proof {
            let t = m.sessions@.take(k + 1);
            assert(t.drop_last() =~= m.sessions@.take(k as int));
            assert(t.last() == m.sessions@[k as int]);
            assert(v@ =~= before + session_line((k + 1) as nat, m.sessions@[k as int]));
        }
        k = k + 1;
    }
    proof {
        assert(m.sessions@.take(n as int) =~= m.sessions@);
        assert(v@ =~= render_market_hours_spec(*m));
    }
    string_from_chars(v.as_slice())
}

} // verus!
