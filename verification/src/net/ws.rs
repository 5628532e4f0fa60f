//! The text side of the Sina quote push service: subscription URLs and the
//! line format of quote frames.

use vstd::prelude::*;

use crate::text::{
    append_chars, append_str, chars_of, decimal, format_u64, has_prefix, slice_chars, split_chars,
    split_on, starts_with, str_to_lowercase, str_to_uppercase, string_from_chars, trim, trim_chars,
    trim_end_char, trim_end_matches_char, unicode_lowercase, unicode_uppercase,
};
use crate::types::Quote;

verus! {

broadcast use vstd::string::group_string_axioms;

/// Errors of the quote push service.
#[derive(Debug, Clone, PartialEq, Eq)]
pub enum Error {
    /// The connection could not be made.
    Connect(String),
    /// The channel carrying the quotes closed.
    ChannelClosed,
    /// A frame had a malformed quote.
    Parse(String),
    /// The socket failed.
    WebSocket(String),
}

/// A stock code in the form the push service wants: `510050.SH` becomes
/// `sh510050`, anything else is lower-cased; surrounding whitespace is
/// ignored and a blank code stays empty.
pub open spec fn normalize_code_spec(code: Seq<char>) -> Seq<char> {
    let t = trim(code);
    let parts = split_on(t, '.');
    if t.len() == 0 {
        Seq::<char>::empty()
    } else if parts.len() == 2 {
        unicode_lowercase(parts[1] + parts[0])
    } else {
        unicode_lowercase(t)
    }
}

/// Normalizes a stock code.
pub fn normalize_code(code: &str) -> (r: String)
    ensures
        r@ == normalize_code_spec(code@),
{
    let v = chars_of(code);
    let t = trim_chars(v.as_slice());
    if t.len() == 0 {
        return String::new();
    }
    let parts = split_chars(t.as_slice(), '.');
    if parts.len() == 2 {
        let mut joined: Vec<char> = Vec::new();
        append_chars(&mut joined, parts[1].as_slice());
        append_chars(&mut joined, parts[0].as_slice());
        let s = string_from_chars(joined.as_slice());
        return str_to_lowercase(s.as_str());
    }
    let s = string_from_chars(t.as_slice());
    str_to_lowercase(s.as_str())
}

/// The text of every piece joined with `,` between them.
pub open spec fn comma_joined(parts: Seq<Seq<char>>) -> Seq<char>
    decreases parts.len(),
{
    if parts.len() == 0 {
        Seq::<char>::empty()
    } else if parts.len() == 1 {
        parts[0]
    } else {
        comma_joined(parts.drop_last()) + seq![','] + parts.last()
    }
}

/// The base of the push-service URL, up to the code list.
pub open spec fn ws_base() -> Seq<char> {
    "ws://w.sinajs.cn/wskt?list="@
}

/// The normalized codes of a subscription.
pub open spec fn normalized_codes(codes: Seq<&str>) -> Seq<Seq<char>> {
    codes.map_values(|c: &str| normalize_code_spec(c@))
}

/// The push-service URL for the given stock codes.
pub fn build_ws_url(codes: &[&str]) -> (url: String)
    ensures
        url@ == ws_base() + comma_joined(normalized_codes(codes@)),
{
    let mut out: Vec<char> = Vec::new();
    append_str(&mut out, "ws://w.sinajs.cn/wskt?list=");
    let mut i: usize = 0;
    while i < codes.len()
        invariant
            i <= codes@.len(),
            out@ == ws_base() + comma_joined(normalized_codes(codes@.subrange(0, i as int))),
        decreases codes@.len() - i,
    {
        let ghost before = out@;
        if i > 0 {
            out.push(',');
        }
        let n = normalize_code(codes[i]);
        append_str(&mut out, n.as_str());
        proof {
            let pre = normalized_codes(codes@.subrange(0, i as int));
            let post = normalized_codes(codes@.subrange(0, i + 1));
            assert(post =~= pre.push(normalize_code_spec(codes@[i as int]@)));
            assert(post.drop_last() =~= pre);
            if i > 0 {
                assert(out@ =~= ws_base() + comma_joined(post));
            } else {
                assert(out@ =~= ws_base() + comma_joined(post));
            }
        }
        i = i + 1;
    }
    proof {
        assert(codes@.subrange(0, codes@.len() as int) =~= codes@);
    }
    string_from_chars(out.as_slice())
}

/// An international futures code with the `hf_` prefix: kept as is when it
/// has one, else prefixed and upper-cased.
pub open spec fn hf_code_spec(code: Seq<char>) -> Seq<char> {
    if has_prefix(code, seq!['h', 'f', '_']) {
        code
    } else {
        seq!['h', 'f', '_'] + unicode_uppercase(code)
    }
}

/// Prefixes an international futures code with `hf_` when it lacks one.
pub fn hf_code(code: &str) -> (r: String)
    ensures
        r@ == hf_code_spec(code@),
{
    let v = chars_of(code);
    let hf: [char; 3] = ['h', 'f', '_'];
    proof {
        assert(hf@ =~= seq!['h', 'f', '_']);
    }
    if starts_with(v.as_slice(), &hf) {
        return String::from_str(code);
    }
    let up = str_to_uppercase(code);
    let mut out: Vec<char> = Vec::new();
    out.push('h');
    out.push('f');
    out.push('_');
    append_str(&mut out, up.as_str());
    proof {
        assert(out@ =~= seq!['h', 'f', '_'] + unicode_uppercase(code@));
    }
    string_from_chars(out.as_slice())
}

/// The `hf_` codes of a subscription.
pub open spec fn hf_codes(codes: Seq<&str>) -> Seq<Seq<char>> {
    codes.map_values(|c: &str| hf_code_spec(c@))
}

/// `base` followed by the `hf_` codes joined with commas.
pub fn hf_list_url(base: &str, codes: &[&str]) -> (url: String)
    ensures
        url@ == base@ + comma_joined(hf_codes(codes@)),
{
    let mut out: Vec<char> = Vec::new();
    append_str(&mut out, base);
    let mut i: usize = 0;
    while i < codes.len()
        invariant
            i <= codes@.len(),
            out@ == base@ + comma_joined(hf_codes(codes@.subrange(0, i as int))),
        decreases codes@.len() - i,
    {
        if i > 0 {
            out.push(',');
        }
        let n = hf_code(codes[i]);
        append_str(&mut out, n.as_str());
        proof {
            let pre = hf_codes(codes@.subrange(0, i as int));
            let post = hf_codes(codes@.subrange(0, i + 1));
            assert(post =~= pre.push(hf_code_spec(codes@[i as int]@)));
            assert(post.drop_last() =~= pre);
            assert(out@ =~= base@ + comma_joined(post));
        }
        i = i + 1;
    }
    proof {
        assert(codes@.subrange(0, codes@.len() as int) =~= codes@);
    }
    string_from_chars(out.as_slice())
}

/// The push-service URL for international futures codes.
pub fn build_international_ws_url(codes: &[&str]) -> (url: String)
    ensures
        url@ == ws_base() + comma_joined(hf_codes(codes@)),
{
    hf_list_url("ws://w.sinajs.cn/wskt?list=", codes)
}

/// The non-blank lines of a frame, each trimmed.
pub open spec fn trimmed_lines(parts: Seq<Seq<char>>) -> Seq<Seq<char>>
    decreases parts.len(),
{
    if parts.len() == 0 {
        Seq::<Seq<char>>::empty()
    } else {
        let prev = trimmed_lines(parts.drop_last());
        let t = trim(parts.last());
        if t.len() == 0 {
            prev
        } else {
            prev.push(t)
        }
    }
}

/// The quote lines of a frame: its lines, trimmed, blank ones dropped.
pub fn quote_lines(text: &str) -> (lines: Vec<String>)
    ensures
        lines@.len() == trimmed_lines(split_on(text@, '\n')).len(),
        forall|i: int| 0 <= i < lines@.len() ==> (#[trigger] lines@[i])@ == trimmed_lines(
            split_on(text@, '\n'),
        )[i],
{
    let v = chars_of(text);
    let parts = split_chars(v.as_slice(), '\n');
    let ghost ps = split_on(text@, '\n');
    let mut out: Vec<String> = Vec::new();
    let mut i: usize = 0;
    proof {
        assert(ps.subrange(0, 0) =~= Seq::<Seq<char>>::empty());
    }
    while i < parts.len()
        invariant
            parts@.len() == ps.len(),
            forall|k: int| 0 <= k < parts@.len() ==> (#[trigger] parts@[k])@ == ps[k],
            i <= parts@.len(),
            out@.len() == trimmed_lines(ps.subrange(0, i as int)).len(),
            forall|k: int| 0 <= k < out@.len() ==> (#[trigger] out@[k])@ == trimmed_lines(
                ps.subrange(0, i as int),
            )[k],
        decreases parts@.len() - i,
    {
        let t = trim_chars(parts[i].as_slice());
        proof {
            assert(ps.subrange(0, i + 1).drop_last() =~= ps.subrange(0, i as int));
            assert(parts@[i as int]@ == ps[i as int]);
        }
        if t.len() > 0 {
            out.push(string_from_chars(t.as_slice()));
        }
        i = i + 1;
    }
    proof {
        assert(ps.subrange(0, ps.len() as int) =~= ps);
    }
    out
}

/// The symbol and fields of a domestic quote line `sym=f0,f1,...;`: the
/// text before the first `=`, and the comma-separated fields up to the next
/// `=`, trimmed and without trailing `;`. `None` without `=` or with fewer
/// than 10 fields.
pub open spec fn domestic_quote_parts(text: Seq<char>) -> Option<(Seq<char>, Seq<Seq<char>>)> {
    let parts = split_on(text, '=');
    if parts.len() < 2 {
        None
    } else {
        let data = trim_end_char(trim(parts[1]), ';');
        let fields = split_on(data, ',');
        if fields.len() < 10 {
            None
        } else {
            Some((trim(parts[0]), fields))
        }
    }
}

/// Reads a domestic quote line: price is field 0 and volume field 2; the
/// other values are left empty. `timestamp` is the time of receipt.
pub fn parse_quote(text: &str, timestamp: i64) -> (r: Result<Quote, Error>)
    ensures
        domestic_quote_parts(text@) is None ==> r == Err::<Quote, Error>(Error::ChannelClosed),
        domestic_quote_parts(text@) matches Some((sym, fields)) ==> (r matches Ok(q) && q.symbol@
            == sym && q.price@ == fields[0] && q.volume@ == fields[2] && q.bid_price@.len() == 0
            && q.ask_price@.len() == 0 && q.open@.len() == 0 && q.high@.len() == 0
            && q.low@.len() == 0 && q.prev_settle@.len() == 0 && q.settle_price@.len() == 0
            && q.quote_time@.len() == 0 && q.date@.len() == 0 && q.name@.len() == 0
            && q.timestamp == timestamp),
{
    let v = chars_of(text);
    let parts = split_chars(v.as_slice(), '=');
    if parts.len() < 2 {
        return Err(Error::ChannelClosed);
    }
    let symbol = trim_chars(parts[0].as_slice());
    let data0 = trim_chars(parts[1].as_slice());
    let data = trim_end_matches_char(data0.as_slice(), ';');
    let fields = split_chars(data.as_slice(), ',');
    if fields.len() < 10 {
        return Err(Error::ChannelClosed);
    }
    Ok(Quote {
        symbol: string_from_chars(symbol.as_slice()),
        price: string_from_chars(fields[0].as_slice()),
        bid_price: String::new(),
        ask_price: String::new(),
        open: String::new(),
        high: String::new(),
        low: String::new(),
        prev_settle: String::new(),
        settle_price: String::new(),
        volume: string_from_chars(fields[2].as_slice()),
        quote_time: String::new(),
        date: String::new(),
        name: String::new(),
        timestamp,
    })
}

/// The data of an international quote line `hf_X="f0,f1,...";` after the
/// first `=`: trimmed, without trailing `;` and then trailing `,`, and
/// without surrounding double quotes.
pub open spec fn international_data(rhs: Seq<char>) -> Seq<char> {
    let d = trim_end_char(trim_end_char(trim(rhs), ';'), ',');
    if d.len() > 0 && d[0] == '"' {
        trim_end_char(d.drop_first(), '"')
    } else {
        d
    }
}

/// Field `i` of `fields`, empty when missing.
pub open spec fn field_or_empty(fields: Seq<Seq<char>>, i: int) -> Seq<char> {
    if 0 <= i < fields.len() {
        fields[i]
    } else {
        Seq::<char>::empty()
    }
}

fn field_text(fields: &Vec<Vec<char>>, i: usize) -> (s: String)
    ensures
        s@ == field_or_empty(fields@.map_values(|f: Vec<char>| f@), i as int),
{
    if i < fields.len() {
        string_from_chars(fields[i as usize].as_slice())
    } else {
        String::new()
    }
}

/// `"insufficient fields: <n>"`.
pub open spec fn insufficient_fields_message(n: nat) -> Seq<char> {
    "insufficient fields: "@ + decimal(n)
}

fn insufficient_fields(n: usize) -> (e: Error)
    ensures
        e matches Error::Parse(m) && m@ == insufficient_fields_message(n as nat),
{
    let mut out: Vec<char> = Vec::new();
    append_str(&mut out, "insufficient fields: ");
    let d = format_u64(n as u64);
    append_chars(&mut out, d.as_slice());
    Error::Parse(string_from_chars(out.as_slice()))
}

/// The index of the first `=` of an international quote line, if any.
pub open spec fn first_eq(text: Seq<char>) -> Option<int> {
    crate::text::first_occurrence(text, seq!['='])
}

/// Reads an international quote line. Fields: 0 price, 2 bid, 3 ask, 4 high,
/// 5 low, 6 quote time, 7 previous settlement, 8 open, 12 date, 13 name,
/// 14 volume; a missing field reads as empty. `timestamp` is the time of
/// receipt.
pub fn parse_international_quote(text: &str, timestamp: i64) -> (r: Result<Quote, Error>)
    ensures
        first_eq(text@) is None ==> (r matches Err(Error::Parse(m)) && m@ == "no = pattern"@),
        first_eq(text@) matches Some(p) ==> {
            let data = international_data(text@.subrange(p + 1, text@.len() as int));
            let fields = split_on(data, ',');
            &&& data.len() == 0 ==> r == Err::<Quote, Error>(Error::ChannelClosed)
            &&& data.len() > 0 && fields.len() < 10 ==> (r matches Err(Error::Parse(m)) && m@
                == insufficient_fields_message(fields.len()))
            &&& data.len() > 0 && fields.len() >= 10 ==> (r matches Ok(q) && q.symbol@ == trim(
                text@.subrange(0, p),
            ) && q.price@ == fields[0] && q.bid_price@ == fields[2] && q.ask_price@ == fields[3]
                && q.high@ == fields[4] && q.low@ == fields[5] && q.quote_time@ == fields[6]
                && q.prev_settle@ == fields[7] && q.open@ == fields[8] && q.settle_price@.len()
                == 0 && q.volume@ == field_or_empty(fields, 14) && q.date@ == field_or_empty(
                fields,
                12,
            ) && q.name@ == field_or_empty(fields, 13) && q.timestamp == timestamp)
        },
{
    let v = chars_of(text);
    let eq: [char; 1] = ['='];
    proof {
        assert(eq@ =~= seq!['=']);
    }
    let p = match crate::text::find_chars(v.as_slice(), &eq) {
        Some(p) => p,
        None => {
            return Err(Error::Parse(String::from_str("no = pattern")));
        },
    };
    let lhs = slice_chars(v.as_slice(), 0, p);
    let rhs = slice_chars(v.as_slice(), p + 1, v.len());
    let symbol = trim_chars(lhs.as_slice());
    let t = trim_chars(rhs.as_slice());
    let t1 = trim_end_matches_char(t.as_slice(), ';');
    let d = trim_end_matches_char(t1.as_slice(), ',');
    let data = if d.len() > 0 && d[0] == '"' {
        let rest = slice_chars(d.as_slice(), 1, d.len());
        proof {
            assert(rest@ =~= d@.drop_first());
        }
        trim_end_matches_char(rest.as_slice(), '"')
    } else {
        d
    };
    if data.len() == 0 {
        return Err(Error::ChannelClosed);
    }
    let fields = split_chars(data.as_slice(), ',');
    if fields.len() < 10 {
        return Err(insufficient_fields(fields.len()));
    }
    let ghost fs = split_on(data@, ',');
    proof {
        assert(fields@.map_values(|f: Vec<char>| f@) =~= fs);
        assert(v@.subrange(p + 1, v@.len() as int) == rhs@);
        assert(data@ == international_data(text@.subrange(p + 1, text@.len() as int)));
    }
    Ok(Quote {
        symbol: string_from_chars(symbol.as_slice()),
        price: field_text(&fields, 0),
        bid_price: field_text(&fields, 2),
        ask_price: field_text(&fields, 3),
        open: field_text(&fields, 8),
        high: field_text(&fields, 4),
        low: field_text(&fields, 5),
        prev_settle: field_text(&fields, 7),
        settle_price: String::new(),
        volume: field_text(&fields, 14),
        quote_time: field_text(&fields, 6),
        date: field_text(&fields, 12),
        name: field_text(&fields, 13),
        timestamp,
    })
}

/// The view of an optional string.
pub open spec fn opt_view(o: Option<String>) -> Option<Seq<char>> {
    match o {
        Some(s) => Some(s@),
        None => None,
    }
}

/// What the `url` crate reads from `s`: host, explicit port, path and query,
/// or the text of its parse error.
pub uninterp spec fn url_parts(s: Seq<char>) -> Result<(Option<Seq<char>>, Option<u16>, Seq<char>, Option<Seq<char>>), Seq<char>>;

/// `Url::parse`, read back with `host_str`, `port`, `path` and `query`; a
/// parse error is given as its message. The result is stated only as the
/// named reading of `s`.
#[verifier::external_body]
fn parse_url(s: &str) -> (r: Result<(Option<String>, Option<u16>, String, Option<String>), String>)
    ensures
        match r {
            Ok((h, p, path, q)) => url_parts(s@) == Ok::<(Option<Seq<char>>, Option<u16>, Seq<char>, Option<Seq<char>>), Seq<char>>((opt_view(h), p, path@, opt_view(q))),
            Err(m) => url_parts(s@) == Err::<(Option<Seq<char>>, Option<u16>, Seq<char>, Option<Seq<char>>), Seq<char>>(m@),
        },
{
    match url::Url::parse(s) {
        Ok(u) => Ok((
            u.host_str().map(|h| h.to_string()),
            u.port(),
            u.path().to_string(),
            u.query().map(|q| q.to_string()),
        )),
        Err(e) => Err(e.to_string()),
    }
}

/// Where a websocket URL connects: `host:port` and the request target.
#[derive(Debug, Clone, PartialEq, Eq)]
pub struct WsTarget {
    pub addr: String,
    pub path_with_query: String,
}

/// The request target: the path, followed by `?` and the query when there
/// is a non-empty one.
pub open spec fn path_with_query_spec(path: Seq<char>, query: Option<Seq<char>>) -> Seq<char> {
    match query {
        Some(q) => if q.len() == 0 {
            path
        } else {
            path + seq!['?'] + q
        },
        None => path,
    }
}

/// The address and request target of websocket URL `url`: a URL that does
/// not parse, or has no host, cannot be connected to; the port defaults to
/// 80.
pub fn ws_target(url: &str) -> (r: Result<WsTarget, Error>)
    ensures
        match url_parts(url@) {
            Err(m) => r matches Err(Error::Connect(x)) && x@ == m,
            Ok((None, _, _, _)) => r matches Err(Error::Connect(x)) && x@ == "no host"@,
            Ok((Some(host), port, path, query)) => r matches Ok(t) && t.addr@ == host + seq![':'] + decimal(
                (match port { Some(p) => p, None => 80u16 }) as nat,
            ) && t.path_with_query@ == path_with_query_spec(path, query),
        },
{
    match parse_url(url) {
        Err(m) => Err(Error::Connect(m)),
        Ok((host, port, path, query)) => {
            let host = match host {
                Some(h) => h,
                None => { return Err(Error::Connect(String::from_str("no host"))); },
            };
            let port: u16 = match port {
                Some(p) => p,
                None => 80,
            };
            let mut target = chars_of(path.as_str());
            match &query {
                Some(q) => {
                    let qv = chars_of(q.as_str());
                    if qv.len() > 0 {
                        target.push('?');
                        append_chars(&mut target, qv.as_slice());
                    }
                },
                None => {},
            }
            let mut addr = chars_of(host.as_str());
            addr.push(':');
            let pv = format_u64(port as u64);
            append_chars(&mut addr, pv.as_slice());
            proof {
                assert(addr@ =~= host@ + seq![':'] + decimal(port as nat));
                assert(target@ =~= path_with_query_spec(path@, opt_view(query)));
            }
            Ok(WsTarget {
                addr: string_from_chars(addr.as_slice()),
                path_with_query: string_from_chars(target.as_slice()),
            })
        },
    }
}

} // verus!
