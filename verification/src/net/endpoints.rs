//! The requests made to the Sina history services: which service a period
//! is fetched from, and the JSONP variable names, URLs and referers.

use vstd::prelude::*;
use vstd::utf8::encode_utf8;

use crate::net::history::Error;
use crate::text::{
    append_chars, append_str, chars_of, decimal, format_u64, has_prefix, starts_with,
    str_to_uppercase, string_from_chars, unicode_uppercase,
};

verus! {

/// Bytes `urlencoding::encode` leaves as they are: ASCII letters, digits and
/// `-`, `.`, `_`, `~`.
pub open spec fn is_unreserved(b: u8) -> bool {
    (48 <= b <= 57) || (65 <= b <= 90) || (97 <= b <= 122) || b == 45 || b == 46 || b == 95 || b == 126
}

/// The upper-case hexadecimal digit of `d` (below 16).
pub open spec fn hex_digit(d: u8) -> char {
    if d < 10 {
        ((48 + d) as u32) as char
    } else {
        ((55 + d) as u32) as char
    }
}

/// Percent-encoding of `bytes`: unreserved bytes as themselves, every other
/// byte as `%` and two upper-case hexadecimal digits.
pub open spec fn percent_encode(bytes: Seq<u8>) -> Seq<char>
    decreases bytes.len(),
{
    if bytes.len() == 0 {
        Seq::empty()
    } else {
        let b = bytes.last();
        percent_encode(bytes.drop_last()) + if is_unreserved(b) {
            seq![(b as u32) as char]
        } else {
            seq!['%', hex_digit(b / 16), hex_digit(b % 16)]
        }
    }
}

/// `urlencoding::encode`: the percent-encoding of the UTF-8 bytes of `s`,
/// which the crate documents as escaping every byte but ASCII letters,
/// digits and `-`, `.`, `_`, `~`, with upper-case hexadecimal digits.
#[verifier::external_body]
fn url_encode(s: &str) -> (r: String)
    ensures
        r@ == percent_encode(encode_utf8(s@)),
{
    urlencoding::encode(s).into_owned()
}

/// How a period is fetched.
#[derive(Debug, Clone, Copy, PartialEq, Eq, Structural)]
pub enum HistoryRequest {
    /// Daily bars, aggregated afterwards to the period.
    Daily,
    /// Intraday bars of `period_minutes` minutes.
    Minutes { period_minutes: u32 },
}

/// How a period of `duration_seconds` is fetched: a day or more from the
/// daily service, whole minutes from the minute service; a zero period or
/// one of seconds that are not whole minutes is refused.
pub open spec fn history_request_spec(duration_seconds: u32) -> Option<HistoryRequest> {
    if duration_seconds == 0 {
        None
    } else if duration_seconds >= 86_400 {
        Some(HistoryRequest::Daily)
    } else if duration_seconds % 60 != 0 {
        None
    } else {
        Some(HistoryRequest::Minutes { period_minutes: (duration_seconds / 60) as u32 })
    }
}

/// Periods of a day or more go to the daily service, and only those; an
/// intraday period of whole minutes goes to the minute service with that
/// many minutes, so that the minutes times sixty give the period back.
pub proof fn lemma_history_request_routes(d: u32)
    ensures
        history_request_spec(d) == Some(HistoryRequest::Daily) <==> d >= 86_400,
        0 < d < 86_400 && d % 60 == 0 ==> (history_request_spec(d) matches Some(
            HistoryRequest::Minutes { period_minutes },
        ) && period_minutes * 60 == d),
        history_request_spec(d) matches Some(HistoryRequest::Minutes { period_minutes }) ==> (d
            < 86_400 && period_minutes * 60 == d && period_minutes >= 1),
        history_request_spec(d) is None <==> d == 0 || (d < 86_400 && d % 60 != 0),
{
}

/// The request for a period, or the parse error the period is refused with.
pub fn history_request(duration_seconds: u32) -> (r: Result<HistoryRequest, Error>)
    ensures
        r matches Ok(q) ==> history_request_spec(duration_seconds) == Some(q),
        r is Err <==> history_request_spec(duration_seconds) is None,
        r matches Err(e) ==> (e matches Error::Parse(m) && m@ == (if duration_seconds == 0 {
            "duration_seconds must be > 0"@
        } else {
            "intraday duration_seconds must be a multiple of 60"@
        })),
{
    if duration_seconds == 0 {
        return Err(Error::Parse(String::from_str("duration_seconds must be > 0")));
    }
    if duration_seconds >= 86_400 {
        return Ok(HistoryRequest::Daily);
    }
    if duration_seconds % 60 != 0 {
        return Err(Error::Parse(String::from_str("intraday duration_seconds must be a multiple of 60")));
    }
    Ok(HistoryRequest::Minutes { period_minutes: duration_seconds / 60 })
}

/// The code the history services know a symbol by: an `hf_` symbol
/// without its prefix, any other symbol in upper case.
pub open spec fn history_code_spec(symbol: Seq<char>) -> Seq<char> {
    if has_prefix(symbol, seq!['h', 'f', '_']) {
        symbol.subrange(3, symbol.len() as int)
    } else {
        unicode_uppercase(symbol)
    }
}

/// The history code of `symbol`.
pub fn history_code(symbol: &str) -> (code: String)
    ensures
        code@ == history_code_spec(symbol@),
{
    let v = chars_of(symbol);
    let prefix = ['h', 'f', '_'];
    if starts_with(v.as_slice(), prefix.as_slice()) {
        let mut out: Vec<char> = Vec::new();
        let mut i: usize = 3;
        while i < v.len()
            invariant
                3 <= i <= v@.len(),
                out@ == v@.subrange(3, i as int),
            decreases v@.len() - i,
        {
            out.push(v[i]);
            proof {
                assert(v@.subrange(3, i + 1) =~= v@.subrange(3, i as int).push(v@[i as int]));
            }
            i = i + 1;
        }
        string_from_chars(out.as_slice())
    } else {
        str_to_uppercase(symbol)
    }
}

/// `"_<code>_<minutes>_<byte length of code>"`, the JSONP variable of a
/// minute-bar request (the length as `str::len` reports it).
pub open spec fn mink_var_name_spec(code: Seq<char>, period_minutes: u32) -> Seq<char> {
    seq!['_'] + code + seq!['_'] + decimal(period_minutes as nat) + seq!['_'] + decimal(
        (encode_utf8(code).len() as usize) as nat,
    )
}

/// The JSONP variable of a minute-bar request for `code`.
pub fn mink_var_name(code: &str, period_minutes: u32) -> (name: String)
    ensures
        name@ == mink_var_name_spec(code@, period_minutes),
{
    let mut v: Vec<char> = Vec::new();
    v.push('_');
    append_str(&mut v, code);
    v.push('_');
    let p = format_u64(period_minutes as u64);
    append_chars(&mut v, p.as_slice());
    v.push('_');
    let n = format_u64(code.len() as u64);
    append_chars(&mut v, n.as_slice());
    proof {
        assert(v@ =~= mink_var_name_spec(code@, period_minutes));
    }
    string_from_chars(v.as_slice())
}

/// The URL of the minute-bar service for JSONP variable `var_name`.
pub open spec fn mink_url_spec(var_name: Seq<char>) -> Seq<char> {
    "https://gu.sina.cn/ft/api/jsonp.php/var%20"@ + percent_encode(encode_utf8(var_name))
        + "%3D/GlobalService.getMink"@
}

/// The minute-bar URL for `var_name`.
pub fn mink_url(var_name: &str) -> (url: String)
    ensures
        url@ == mink_url_spec(var_name@),
{
    let mut v: Vec<char> = Vec::new();
    append_str(&mut v, "https://gu.sina.cn/ft/api/jsonp.php/var%20");
    let enc = url_encode(var_name);
    append_str(&mut v, enc.as_str());
    append_str(&mut v, "%3D/GlobalService.getMink");
    proof {
        assert(v@ =~= mink_url_spec(var_name@));
    }
    string_from_chars(v.as_slice())
}

/// `"<year>_<month>_<day>"`, the daily request's cache buster.
pub open spec fn cache_buster_spec(year: i32, month: u32, day: u32) -> Seq<char> {
    crate::text::decimal_int(year as int) + seq!['_'] + decimal(month as nat) + seq!['_'] + decimal(
        day as nat,
    )
}

/// The cache buster for a date.
pub fn cache_buster(year: i32, month: u32, day: u32) -> (s: String)
    ensures
        s@ == cache_buster_spec(year, month, day),
{
    let mut v = crate::text::format_i64(year as i64);
    v.push('_');
    let m = format_u64(month as u64);
    append_chars(&mut v, m.as_slice());
    v.push('_');
    let d = format_u64(day as u64);
    append_chars(&mut v, d.as_slice());
    proof {
        assert(v@ =~= cache_buster_spec(year, month, day));
    }
    string_from_chars(v.as_slice())
}

/// The URL of the daily-bar service for JSONP variable `"_<code><buster>"`.
pub open spec fn daily_url_spec(code: Seq<char>, buster: Seq<char>) -> Seq<char> {
    "https://stock2.finance.sina.com.cn/futures/api/jsonp.php/var%20"@ + percent_encode(
        encode_utf8(seq!['_'] + code + buster),
    ) + "=/GlobalFuturesService.getGlobalFuturesDailyKLine"@
}

/// The daily-bar URL for `code` and cache buster `buster`.
pub fn daily_url(code: &str, buster: &str) -> (url: String)
    ensures
        url@ == daily_url_spec(code@, buster@),
{
    let mut name: Vec<char> = Vec::new();
    name.push('_');
    append_str(&mut name, code);
    append_str(&mut name, buster);
    let var_name = string_from_chars(name.as_slice());
    let mut v: Vec<char> = Vec::new();
    append_str(&mut v, "https://stock2.finance.sina.com.cn/futures/api/jsonp.php/var%20");
    let enc = url_encode(var_name.as_str());
    append_str(&mut v, enc.as_str());
    append_str(&mut v, "=/GlobalFuturesService.getGlobalFuturesDailyKLine");
    proof {
        assert(name@ =~= seq!['_'] + code@ + buster@);
        assert(v@ =~= daily_url_spec(code@, buster@));
    }
    string_from_chars(v.as_slice())
}

/// The referer the history services expect for `code`.
pub open spec fn referer_spec(code: Seq<char>) -> Seq<char> {
    "https://finance.sina.com.cn/futures/quotes/"@ + code + ".shtml"@
}

/// `"https://finance.sina.com.cn/futures/quotes/<code>.shtml"`.
pub fn referer(code: &str) -> (r: String)
    ensures
        r@ == referer_spec(code@),
{
    let mut v: Vec<char> = Vec::new();
    append_str(&mut v, "https://finance.sina.com.cn/futures/quotes/");
    append_str(&mut v, code);
    append_str(&mut v, ".shtml");
    proof {
        assert(v@ =~= referer_spec(code@));
    }
    string_from_chars(v.as_slice())
}

/// The URL of the trading-hours service for market `category` (`"hf"` or
/// `"nf"`) and contract `code`, whose JSONP variable is
/// `"kke_future_<category>_<code>"`.
pub open spec fn market_hours_url_spec(category: Seq<char>, code: Seq<char>) -> Seq<char> {
    "https://stock.finance.sina.com.cn/futures/api/jsonp.php/var%20"@ + percent_encode(
        encode_utf8("kke_future_"@ + category + seq!['_'] + code),
    ) + "=/InterfaceInfoService.getMarket"@
}

/// The trading-hours URL of `code` in market `category`.
pub fn market_hours_url(category: &str, code: &str) -> (url: String)
    ensures
        url@ == market_hours_url_spec(category@, code@),
{
    let mut name: Vec<char> = Vec::new();
    append_str(&mut name, "kke_future_");
    append_str(&mut name, category);
    name.push('_');
    append_str(&mut name, code);
    let var_name = string_from_chars(name.as_slice());
    let mut v: Vec<char> = Vec::new();
    append_str(&mut v, "https://stock.finance.sina.com.cn/futures/api/jsonp.php/var%20");
    let enc = url_encode(var_name.as_str());
    append_str(&mut v, enc.as_str());
    append_str(&mut v, "=/InterfaceInfoService.getMarket");
    proof {
        assert(name@ =~= "kke_future_"@ + category@ + seq!['_'] + code@);
        assert(v@ =~= market_hours_url_spec(category@, code@));
    }
    string_from_chars(v.as_slice())
}

} // verus!
