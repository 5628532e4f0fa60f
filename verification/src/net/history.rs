//! The text side of the Sina history endpoints: JSONP unwrapping, symbol
//! inference for the trading-hours service, and bucket arithmetic.

use vstd::prelude::*;

use crate::data::types::{FuturesCategory, FuturesMarketHours, TradingSession};
use crate::text::{
    ascii_upper, ascii_uppercase, chars_of, find_chars, first_occurrence, has_prefix, occurs_at, starts_with,
    string_from_chars, to_ascii_uppercase, trim, trim_chars, trim_str,
};

verus! {

broadcast use vstd::string::group_string_axioms;

/// Errors of the history text formats.
#[derive(Debug, Clone, PartialEq, Eq)]
pub enum Error {
    /// The payload does not have the expected shape.
    Parse(String),
    /// The service answered without data.
    Empty,
}

/// Nesting depth after reading `s[from..to)`, starting at depth 1, where
/// `open` adds one level and `close` removes one.
pub open spec fn nesting(s: Seq<char>, from: int, to: int, open: char, close: char) -> int
    decreases to - from,
{
    if to <= from {
        1
    } else {
        let d = nesting(s, from, to - 1, open, close);
        if s[to - 1] == open {
            d + 1
        } else if s[to - 1] == close {
            d - 1
        } else {
            d
        }
    }
}

/// Index `i` holds the delimiter that closes the level opened just before
/// `from`: reading `s[from..=i]` first brings the depth to zero.
pub open spec fn closes_at(s: Seq<char>, from: int, i: int, open: char, close: char) -> bool {
    from <= i < s.len() && nesting(s, from, i + 1, open, close) == 0 && forall|k: int|
        from <= k < i ==> #[trigger] nesting(s, from, k + 1, open, close) != 0
}

/// Scans from `from` for the delimiter closing the level opened before it.
fn find_closing(v: &Vec<char>, from: usize, open: char, close: char) -> (r: Option<usize>)
    requires
        from <= v@.len(),
    ensures
        match r {
            Some(i) => closes_at(v@, from as int, i as int, open, close),
            None => forall|i: int| !closes_at(v@, from as int, i, open, close),
        },
{
    let n = v.len();
    let mut depth: u128 = 1;
    let mut i = from;
    while i < n
        invariant
            n == v@.len(),
            from <= i <= n,
            depth == nesting(v@, from as int, i as int, open, close),
            1 <= depth <= i - from + 1,
            forall|k: int| from <= k < i ==> #[trigger] nesting(v@, from as int, k + 1, open, close) != 0,
        decreases n - i,
    {
        let c = v[i];
        if c == open {
            depth = depth + 1;
        } else if c == close {
            depth = depth - 1;
        }
        if depth == 0 {
            return Some(i);
        }
        i = i + 1;
    }
    proof {
        assert forall|j: int| !closes_at(v@, from as int, j, open, close) by {
            if closes_at(v@, from as int, j, open, close) {
                assert(nesting(v@, from as int, j + 1, open, close) == 0);
            }
        }
    }
    None
}

/// The marker that introduces a JSONP array payload: `=([`.
pub open spec fn array_marker() -> Seq<char> {
    seq!['=', '(', '[']
}

/// The marker that introduces a JSONP object payload: `=({`.
pub open spec fn object_marker() -> Seq<char> {
    seq!['=', '(', '{']
}

/// What `extract_json_array` returns: the text between the `[` of the first
/// `=([` and its matching `]`.
pub open spec fn extract_json_array_spec(s: Seq<char>) -> Option<Seq<char>> {
    match first_occurrence(s, array_marker()) {
        None => None,
        Some(start) => if exists|i: int| #[trigger] closes_at(s, start + 3, i, '[', ']') {
            let i = choose|i: int| #[trigger] closes_at(s, start + 3, i, '[', ']');
            Some(s.subrange(start + 3, i))
        } else {
            None
        },
    }
}

/// What `extract_json_object` returns: the object that starts at the `{` of
/// the first `=({`, braces included.
pub open spec fn extract_json_object_spec(s: Seq<char>) -> Option<Seq<char>> {
    match first_occurrence(s, object_marker()) {
        None => None,
        Some(start) => if exists|i: int| #[trigger] closes_at(s, start + 3, i, '{', '}') {
            let i = choose|i: int| #[trigger] closes_at(s, start + 3, i, '{', '}');
            Some(s.subrange(start + 2, i + 1))
        } else {
            None
        },
    }
}

proof fn lemma_closes_at_unique(s: Seq<char>, from: int, i: int, j: int, open: char, close: char)
    requires
        closes_at(s, from, i, open, close),
        closes_at(s, from, j, open, close),
    ensures
        i == j,
{
    if i < j {
        assert(nesting(s, from, i + 1, open, close) != 0);
    } else if j < i {
        assert(nesting(s, from, j + 1, open, close) != 0);
    }
}

proof fn lemma_extract_array(s: Seq<char>, start: int, i: int)
    requires
        0 <= start,
        first_occurrence(s, array_marker()) == Some(start),
        closes_at(s, start + 3, i, '[', ']'),
    ensures
        extract_json_array_spec(s) == Some(s.subrange(start + 3, i)),
{
    assert(exists|j: int| #[trigger] closes_at(s, start + 3, j, '[', ']'));
    let c = choose|c: int| #[trigger] closes_at(s, start + 3, c, '[', ']');
    lemma_closes_at_unique(s, start + 3, c, i, '[', ']');
    assert(c == i);
    let r = match first_occurrence(s, array_marker()) {
        None => None,
        Some(st) => if exists|j: int| #[trigger] closes_at(s, st + 3, j, '[', ']') {
            let k = choose|k: int| #[trigger] closes_at(s, st + 3, k, '[', ']');
            Some(s.subrange(st + 3, k))
        } else {
            None
        },
    };
    assert(r == Some(s.subrange(start + 3, i)));
    assert(r == extract_json_array_spec(s));
}

proof fn lemma_extract_object(s: Seq<char>, start: int, i: int)
    requires
        0 <= start,
        first_occurrence(s, object_marker()) == Some(start),
        closes_at(s, start + 3, i, '{', '}'),
    ensures
        extract_json_object_spec(s) == Some(s.subrange(start + 2, i + 1)),
{
    assert(exists|j: int| #[trigger] closes_at(s, start + 3, j, '{', '}'));
    let c = choose|c: int| #[trigger] closes_at(s, start + 3, c, '{', '}');
    lemma_closes_at_unique(s, start + 3, c, i, '{', '}');
    assert(c == i);
    let r = match first_occurrence(s, object_marker()) {
        None => None,
        Some(st) => if exists|j: int| #[trigger] closes_at(s, st + 3, j, '{', '}') {
            let k = choose|k: int| #[trigger] closes_at(s, st + 3, k, '{', '}');
            Some(s.subrange(st + 2, k + 1))
        } else {
            None
        },
    };
    assert(r == Some(s.subrange(start + 2, i + 1)));
    assert(r == extract_json_object_spec(s));
}

fn error_text(msg: &str) -> (e: Error)
    ensures
        e matches Error::Parse(m) && m@ == msg@,
{
    Error::Parse(String::from_str(msg))
}

/// The array payload of a JSONP response `var x=([ ... ]);`, without its
/// brackets. Fails when there is no `=([` or its `[` is never closed.
pub fn extract_json_array(text: &str) -> (r: Result<&str, Error>)
    ensures
        first_occurrence(text@, array_marker()) is None ==> (r matches Err(Error::Parse(m)) && m@
            == "no =([ pattern"@),
        first_occurrence(text@, array_marker()) is Some ==> match extract_json_array_spec(text@) {
            Some(body) => r matches Ok(x) && x@ == body,
            None => r matches Err(Error::Parse(m)) && m@ == "unmatched brackets"@,
        },
{
    let v = chars_of(text);
    let marker: [char; 3] = ['=', '(', '['];
    proof {
        assert(marker@ =~= array_marker());
    }
    let start = match find_chars(v.as_slice(), &marker) {
        Some(i) => i,
        None => {
            return Err(error_text("no =([ pattern"));
        },
    };
    proof {
        assert(occurs_at(v@, marker@, start as int));
        assert(marker@.len() == 3);
        assert(start + 3 <= v.len());
    }
    let array_start = start + 3;
    match find_closing(&v, array_start, '[', ']') {
        Some(i) => {
            proof {
                assert(first_occurrence(text@, array_marker()) == Some(start as int));
                assert(closes_at(text@, start + 3, i as int, '[', ']'));
                lemma_extract_array(text@, start as int, i as int);
            }
            Ok(text.substring_char(array_start, i))
        },
        None => {
            proof {
                assert(first_occurrence(text@, array_marker()) == Some(start as int));
            }
            Err(error_text("unmatched brackets"))
        },
    }
}

/// The object payload of a JSONP response `var x=({ ... });`, braces
/// included. Fails when there is no `=({` or its `{` is never closed.
pub fn extract_json_object(text: &str) -> (r: Result<&str, Error>)
    ensures
        first_occurrence(text@, object_marker()) is None ==> (r matches Err(Error::Parse(m)) && m@
            == "no =({ pattern"@),
        first_occurrence(text@, object_marker()) is Some ==> match extract_json_object_spec(text@) {
            Some(body) => r matches Ok(x) && x@ == body,
            None => r matches Err(Error::Parse(m)) && m@ == "unmatched braces"@,
        },
{
    let v = chars_of(text);
    let marker: [char; 3] = ['=', '(', '{'];
    proof {
        assert(marker@ =~= object_marker());
    }
    let start = match find_chars(v.as_slice(), &marker) {
        Some(i) => i,
        None => {
            return Err(error_text("no =({ pattern"));
        },
    };
    proof {
        assert(occurs_at(v@, marker@, start as int));
    }
    let object_start = start + 2;
    match find_closing(&v, object_start + 1, '{', '}') {
        Some(i) => {
            proof {
                assert(first_occurrence(text@, object_marker()) == Some(start as int));
                assert(closes_at(text@, start + 3, i as int, '{', '}'));
                lemma_extract_object(text@, start as int, i as int);
            }
            Ok(text.substring_char(object_start, i + 1))
        },
        None => {
            proof {
                assert(first_occurrence(text@, object_marker()) == Some(start as int));
            }
            Err(error_text("unmatched braces"))
        },
    }
}

/// A symbol resolved to its market and upper-case contract code.
#[derive(Debug, Clone, PartialEq, Eq)]
pub struct InferredMarketSymbol {
    pub category: FuturesCategory,
    pub code: String,
}

/// `hf_` as characters.
pub open spec fn hf_prefix() -> Seq<char> {
    seq!['h', 'f', '_']
}

/// `nf_` as characters.
pub open spec fn nf_prefix() -> Seq<char> {
    seq!['n', 'f', '_']
}

/// The market and code of a symbol: `hf_X` is international, `nf_X` and a
/// bare `X` are domestic; the code is ASCII-uppercased, surrounding
/// whitespace ignored.
pub open spec fn infer_market_symbol_spec(symbol: Seq<char>) -> (FuturesCategory, Seq<char>) {
    let t = trim(symbol);
    if has_prefix(t, hf_prefix()) {
        (FuturesCategory::Hf, ascii_uppercase(t.subrange(3, t.len() as int)))
    } else if has_prefix(t, nf_prefix()) {
        (FuturesCategory::Nf, ascii_uppercase(t.subrange(3, t.len() as int)))
    } else {
        (FuturesCategory::Nf, ascii_uppercase(t))
    }
}

/// Whether `c` is an ASCII lower-case letter.
pub open spec fn is_ascii_lower(c: char) -> bool {
    'a' <= c && c <= 'z'
}

proof fn lemma_upper_char(c: char)
    ensures
        !is_ascii_lower(ascii_upper(c)),
        ascii_upper(ascii_upper(c)) == ascii_upper(c),
        is_ascii_lower(c) ==> ascii_upper(c) as u32 == c as u32 - 32,
        !is_ascii_lower(c) ==> ascii_upper(c) == c,
{
    if is_ascii_lower(c) {
        let u = ((c as u32) - 32) as char;
        assert(u as u32 == c as u32 - 32);
        assert(!('a' <= u && u <= 'z'));
    }
}

/// The code a symbol is known by in the trading-hours service is upper-case
/// ASCII: it holds no ASCII lower-case letter, and it is the symbol (trimmed,
/// without an `hf_` or `nf_` prefix) with each ASCII letter put in upper
/// case and every other character kept. An `hf_` symbol is international,
/// any other domestic.
pub proof fn lemma_market_code_upper(symbol: Seq<char>)
    ensures
        ({
            let t = trim(symbol);
            let rest = if has_prefix(t, hf_prefix()) || has_prefix(t, nf_prefix()) {
                t.subrange(3, t.len() as int)
            } else {
                t
            };
            let code = infer_market_symbol_spec(symbol).1;
            &&& code.len() == rest.len()
            &&& forall|i: int| 0 <= i < code.len() ==> !is_ascii_lower(#[trigger] code[i])
            &&& forall|i: int| 0 <= i < code.len() ==> (is_ascii_lower(rest[i]) ==> #[trigger] code[i] as u32
                == rest[i] as u32 - 32)
            &&& forall|i: int| 0 <= i < code.len() ==> (!is_ascii_lower(rest[i]) ==> #[trigger] code[i]
                == rest[i])
            &&& (infer_market_symbol_spec(symbol).0 == FuturesCategory::Hf <==> has_prefix(t, hf_prefix()))
        }),
{
    let t = trim(symbol);
    let rest = if has_prefix(t, hf_prefix()) || has_prefix(t, nf_prefix()) {
        t.subrange(3, t.len() as int)
    } else {
        t
    };
    let code = infer_market_symbol_spec(symbol).1;
    assert(code == ascii_uppercase(rest));
    assert forall|i: int| 0 <= i < code.len() implies !is_ascii_lower(#[trigger] code[i])
        && (is_ascii_lower(rest[i]) ==> code[i] as u32 == rest[i] as u32 - 32)
        && (!is_ascii_lower(rest[i]) ==> code[i] == rest[i]) by {
        lemma_upper_char(rest[i]);
    }
}

fn skip_chars(v: &Vec<char>, k: usize) -> (r: Vec<char>)
    requires
        k <= v@.len(),
    ensures
        r@ == v@.subrange(k as int, v@.len() as int),
{
    let mut r: Vec<char> = Vec::new();
    let mut i = k;
    while i < v.len()
        invariant
            k <= i <= v@.len(),
            r@ == v@.subrange(k as int, i as int),
        decreases v@.len() - i,
    {
        r.push(v[i]);
        proof {
            assert(v@.subrange(k as int, i + 1) =~= v@.subrange(k as int, i as int).push(v@[i as int]));
        }
        i = i + 1;
    }
    r
}

/// Resolves a symbol to its market and code.
pub fn infer_market_symbol(symbol: &str) -> (r: InferredMarketSymbol)
    ensures
        (r.category, r.code@) == infer_market_symbol_spec(symbol@),
{
    let v = chars_of(symbol);
    let t = trim_chars(v.as_slice());
    let hf: [char; 3] = ['h', 'f', '_'];
    let nf: [char; 3] = ['n', 'f', '_'];
    proof {
        assert(hf@ =~= hf_prefix());
        assert(nf@ =~= nf_prefix());
    }
    if starts_with(t.as_slice(), &hf) {
        let rest = skip_chars(&t, 3);
        let code = to_ascii_uppercase(rest.as_slice());
        return InferredMarketSymbol {
            category: FuturesCategory::Hf,
            code: string_from_chars(code.as_slice()),
        };
    }
    if starts_with(t.as_slice(), &nf) {
        let rest = skip_chars(&t, 3);
        let code = to_ascii_uppercase(rest.as_slice());
        return InferredMarketSymbol {
            category: FuturesCategory::Nf,
            code: string_from_chars(code.as_slice()),
        };
    }
    let code = to_ascii_uppercase(t.as_slice());
    InferredMarketSymbol { category: FuturesCategory::Nf, code: string_from_chars(code.as_slice()) }
}

/// The key under which trading hours are cached: `"<category>:<code>"`.
pub open spec fn market_hours_cache_key_spec(symbol: Seq<char>) -> Seq<char> {
    let (cat, code) = infer_market_symbol_spec(symbol);
    cat.spec_as_str() + seq![':'] + code
}

/// `"<category>:<code>"` for the symbol.
pub fn market_hours_cache_key(symbol: &str) -> (key: String)
    ensures
        key@ == market_hours_cache_key_spec(symbol@),
{
    let inferred = infer_market_symbol(symbol);
    let mut v = chars_of(inferred.category.as_str());
    v.push(':');
    let code = chars_of(inferred.code.as_str());
    crate::text::append_chars(&mut v, code.as_slice());
    string_from_chars(v.as_slice())
}

/// `None` for blank text, else the trimmed text.
pub fn empty_to_none(value: String) -> (r: Option<String>)
    ensures
        trim(value@).len() == 0 ==> r is None,
        trim(value@).len() > 0 ==> (r matches Some(t) && t@ == trim(value@)),
{
    let t = trim_str(value.as_str());
    if t.as_str().is_empty() {
        None
    } else {
        Some(t)
    }
}

/// The trading hours decoded from the service's payload fields; blank
/// exchange and interval become `None`.
pub fn market_hours_from_payload(
    category: FuturesCategory,
    symbol: &str,
    timezone: String,
    exchange: String,
    interval: String,
    sessions: Vec<(String, String)>,
) -> (m: FuturesMarketHours)
    ensures
        m.category == category,
        m.symbol@ == symbol@,
        m.timezone@ == timezone@,
        trim(exchange@).len() == 0 ==> m.exchange is None,
        trim(exchange@).len() > 0 ==> (m.exchange matches Some(t) && t@ == trim(exchange@)),
        trim(interval@).len() == 0 ==> m.interval is None,
        trim(interval@).len() > 0 ==> (m.interval matches Some(t) && t@ == trim(interval@)),
        m.sessions@.len() == sessions@.len(),
        forall|i: int| 0 <= i < sessions@.len() ==> (#[trigger] m.sessions@[i]).start@ == sessions@[i].0@
            && m.sessions@[i].end@ == sessions@[i].1@,
{
    let mut out: Vec<TradingSession> = Vec::new();
    let n = sessions.len();
    let mut i: usize = 0;
    while i < n
        invariant
            n == sessions@.len(),
            i <= n,
            out@.len() == i,
            forall|k: int| 0 <= k < i ==> (#[trigger] out@[k]).start@ == sessions@[k].0@
                && out@[k].end@ == sessions@[k].1@,
        decreases n - i,
    {
        let (a, b) = &sessions[i];
        out.push(TradingSession { start: a.clone(), end: b.clone() });
        i = i + 1;
    }
    FuturesMarketHours {
        category,
        symbol: String::from_str(symbol),
        timezone,
        exchange: empty_to_none(exchange),
        interval: empty_to_none(interval),
        sessions: out,
    }
}

/// Nanoseconds in `duration_seconds` seconds.
pub fn duration_ns(duration_seconds: u32) -> (ns: i64)
    ensures
        ns == duration_seconds * 1_000_000_000,
{
    (duration_seconds as i64) * 1_000_000_000
}

/// The bucket of a timestamp: `floor(datetime_ns / period)` for a positive
/// period, 0 for a zero period.
pub fn compute_bucket_id(datetime_ns: i64, duration_seconds: u32) -> (id: i64)
    ensures
        duration_seconds == 0 ==> id == 0,
        duration_seconds > 0 ==> id == datetime_ns as int / (duration_seconds * 1_000_000_000),
{
    let d = duration_ns(duration_seconds);
    if d <= 0 {
        return 0;
    }
    proof {
        let x = datetime_ns as int;
        let dd = d as int;
        assert(i64::MIN <= x / dd <= i64::MAX) by (nonlinear_arith)
            requires
                dd >= 1,
                i64::MIN <= x <= i64::MAX,
        {
            if x >= 0 {
                assert(x / dd <= x);
                assert(x / dd >= 0);
            } else {
                assert(x / dd >= x);
                assert(x / dd < 0);
            }
        }
    }
    match datetime_ns.checked_div_euclid(d) {
        Some(q) => q,
        None => 0,
    }
}

} // verus!
