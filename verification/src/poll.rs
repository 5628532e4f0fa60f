//! The text side of the Sina polling quote endpoint (`hq.sinajs.cn`).

use vstd::prelude::*;

use crate::net::ws::{comma_joined, hf_codes, hf_list_url, insufficient_fields_message};
use crate::text::{
    append_chars, append_str, chars_of, find_chars, first_occurrence, format_u64,
    last_index_before, rfind_char, slice_chars, split_chars, split_on, string_from_chars,
    trim_end_char, trim_end_matches_char,
};
use crate::types::Quote;

verus! {

broadcast use vstd::string::group_string_axioms;

/// Errors of the polling endpoint's text format.
#[derive(Debug, Clone, PartialEq, Eq)]
pub enum Error {
    /// The response does not have the expected shape.
    Parse(String),
}

/// The base of the polling URL, up to the code list.
pub open spec fn poll_base() -> Seq<char> {
    "https://hq.sinajs.cn/?list="@
}

/// The polling URL for international futures codes.
pub fn build_international_url(codes: &[&str]) -> (url: String)
    ensures
        url@ == poll_base() + comma_joined(hf_codes(codes@)),
{
    hf_list_url("https://hq.sinajs.cn/?list=", codes)
}

/// `="` as characters.
pub open spec fn open_quote_marker() -> Seq<char> {
    seq!['=', '"']
}

/// The text between the first `="` and the last `"` of a response, when
/// the last `"` does not come before the data starts.
pub open spec fn poll_data_bounds_ok(text: Seq<char>) -> bool {
    match first_occurrence(text, open_quote_marker()) {
        Some(s) => {
            let e = last_index_before(text, text.len() as int, '"');
            e == -1 || e >= s + 2
        },
        None => true,
    }
}

/// Whether a response can be read: the last `"` does not fall inside the
/// opening `="`.
pub fn poll_text_ok(text: &str) -> (b: bool)
    ensures
        b == poll_data_bounds_ok(text@),
{
    let v = chars_of(text);
    let marker: [char; 2] = ['=', '"'];
    proof {
        assert(marker@ =~= open_quote_marker());
    }
    match find_chars(v.as_slice(), &marker) {
        Some(s) => match rfind_char(v.as_slice(), '"') {
            Some(e) => e >= s && e - s >= 2,
            None => true,
        },
        None => true,
    }
}

/// The data of a response: the text after the first `="` up to the last
/// `"`, without trailing `;`.
pub open spec fn poll_data(text: Seq<char>, s: int) -> Seq<char> {
    let e = last_index_before(text, text.len() as int, '"');
    let end = if e == -1 { text.len() as int } else { e };
    trim_end_char(text.subrange(s + 2, end), ';')
}

/// Reads a polled quote `var hq_str_X="f0,f1,...";`: the symbol is field 0,
/// the price field 1 (field 8 when field 1 is empty) and the volume field 9.
/// `timestamp` is the time of receipt.
pub fn parse_international_quote(text: &str, timestamp: i64) -> (r: Result<Quote, Error>)
    requires
        poll_data_bounds_ok(text@),
    ensures
        first_occurrence(text@, open_quote_marker()) is None ==> (r matches Err(Error::Parse(m)) && m@
            == "no =\" pattern"@),
        first_occurrence(text@, open_quote_marker()) matches Some(s) ==> {
            let data = poll_data(text@, s);
            let fields = split_on(data, ',');
            &&& data.len() == 0 ==> (r matches Err(Error::Parse(m)) && m@ == "empty data"@)
            &&& data.len() > 0 && fields.len() < 10 ==> (r matches Err(Error::Parse(m)) && m@
                == insufficient_fields_message(fields.len()))
            &&& data.len() > 0 && fields.len() >= 10 ==> (r matches Ok(q) && q.symbol@ == fields[0]
                && q.price@ == (if fields[1].len() == 0 {
                fields[8]
            } else {
                fields[1]
            }) && q.volume@ == fields[9] && q.bid_price@.len() == 0 && q.ask_price@.len() == 0
                && q.open@.len() == 0 && q.high@.len() == 0 && q.low@.len() == 0
                && q.prev_settle@.len() == 0 && q.settle_price@.len() == 0
                && q.quote_time@.len() == 0 && q.date@.len() == 0 && q.name@.len() == 0
                && q.timestamp == timestamp)
        },
{
    let v = chars_of(text);
    let marker: [char; 2] = ['=', '"'];
    proof {
        assert(marker@ =~= open_quote_marker());
    }
    let s = match find_chars(v.as_slice(), &marker) {
        Some(s) => s,
        None => {
            return Err(Error::Parse(String::from_str("no =\" pattern")));
        },
    };
    let start = s + 2;
    let end = match rfind_char(v.as_slice(), '"') {
        Some(e) => e,
        None => v.len(),
    };
    let raw = slice_chars(v.as_slice(), start, end);
    let data = trim_end_matches_char(raw.as_slice(), ';');
    if data.len() == 0 {
        return Err(Error::Parse(String::from_str("empty data")));
    }
    let fields = split_chars(data.as_slice(), ',');
    if fields.len() < 10 {
        let mut out: Vec<char> = Vec::new();
        append_str(&mut out, "insufficient fields: ");
        let d = format_u64(fields.len() as u64);
        append_chars(&mut out, d.as_slice());
        return Err(Error::Parse(string_from_chars(out.as_slice())));
    }
    let idx_price: usize = if fields[1].len() == 0 { 8 } else { 1 };
    Ok(Quote {
        symbol: string_from_chars(fields[0].as_slice()),
        price: string_from_chars(fields[idx_price].as_slice()),
        bid_price: String::new(),
        ask_price: String::new(),
        open: String::new(),
        high: String::new(),
        low: String::new(),
        prev_settle: String::new(),
        settle_price: String::new(),
        volume: string_from_chars(fields[9].as_slice()),
        quote_time: String::new(),
        date: String::new(),
        name: String::new(),
        timestamp,
    })
}

} // verus!
