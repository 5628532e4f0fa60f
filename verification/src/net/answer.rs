//! The rows of a history answer.
//!
//! The services answer `var x=([ {...}, {...} ]);`. The array payload is cut
//! out of the text, read as JSON by serde_json, and each object that carries
//! the wanted fields as strings becomes one row of text fields. The rows'
//! times are then placed in bar slots.

use vstd::prelude::*;

use crate::net::datetime::{bar_slot, bar_slot_spec, parse_datetime, parse_datetime_spec};
use crate::net::history::{array_marker, compute_bucket_id, duration_ns, extract_json_array, extract_json_array_spec, Error};
use crate::text::{append_str, first_occurrence, str_eq, string_from_chars};

verus! {

broadcast use vstd::string::group_string_axioms;

/// What serde_json reads from `body` as a JSON value: `Err` with the error's
/// text when `body` is not JSON; `Ok(None)` when the value is not an array;
/// else the array's items, each `None` when it is not an object and else
/// the object's entries, a string value as `Some` and any other value as
/// `None`.
pub uninterp spec fn json_rows(body: Seq<char>) -> Result<Option<Seq<Option<Seq<(Seq<char>, Option<Seq<char>>)>>>>, Seq<char>>;

/// `serde_json::from_str::<Value>`, its array items and their object entries
/// converted to plain strings. The result is stated only as the named reading
/// of the text.
#[verifier::external_body]
fn parse_json_rows(text: &str) -> (r: Result<Option<Vec<Option<Vec<(String, Option<String>)>>>>, String>)
    ensures
        json_rows(text@) == match r {
            Ok(items) => Ok(items.deep_view()),
            Err(e) => Err::<Option<Seq<Option<Seq<(Seq<char>, Option<Seq<char>>)>>>>, Seq<char>>(e@),
        },
{
    match serde_json::from_str::<serde_json::Value>(text) {
        Ok(serde_json::Value::Array(items)) => Ok(Some(items.iter().map(|v| match v {
            serde_json::Value::Object(m) => Some(m.iter().map(|(k, x)| (k.clone(), x.as_str().map(String::from))).collect()),
            _ => None,
        }).collect())),
        Ok(_) => Ok(None),
        Err(e) => Err(e.to_string()),
    }
}

/// The field names of the two history services.
#[derive(Debug, Clone, Copy, PartialEq, Eq, Structural)]
pub enum RowKeys {
    /// Minute bars: `d`, `o`, `h`, `l`, `c`, `v` and `p`, which must be present.
    Minute,
    /// Daily bars: `date`, `open`, `high`, `low`, `close`, `volume` and
    /// `position`, which may be missing.
    Daily,
}

/// The names of time, open, high, low, close, volume and open interest.
pub open spec fn key_names(keys: RowKeys) -> Seq<Seq<char>> {
    match keys {
        RowKeys::Minute => seq!["d"@, "o"@, "h"@, "l"@, "c"@, "v"@, "p"@],
        RowKeys::Daily => seq!["date"@, "open"@, "high"@, "low"@, "close"@, "volume"@, "position"@],
    }
}

/// The value of the first entry of `obj` named `key`: `None` when there is
/// none, `Some(None)` when its value is not a string.
pub open spec fn lookup(obj: Seq<(Seq<char>, Option<Seq<char>>)>, key: Seq<char>) -> Option<Option<Seq<char>>>
    decreases obj.len(),
{
    if obj.len() == 0 {
        None
    } else {
        match lookup(obj.drop_last(), key) {
            Some(v) => Some(v),
            None => if obj.last().0 == key {
                Some(obj.last().1)
            } else {
                None
            },
        }
    }
}

/// The string stored under `key`, if any.
pub open spec fn text_field(obj: Seq<(Seq<char>, Option<Seq<char>>)>, key: Seq<char>) -> Option<Seq<char>> {
    match lookup(obj, key) {
        Some(Some(s)) => Some(s),
        _ => None,
    }
}

/// The open interest text: the string stored under `key`, else `"0"`; a
/// missing entry leaves the row out when the entry is `required`.
pub open spec fn open_interest_field(obj: Seq<(Seq<char>, Option<Seq<char>>)>, key: Seq<char>, required: bool) -> Option<Seq<char>> {
    match lookup(obj, key) {
        Some(Some(s)) => Some(s),
        Some(None) => Some("0"@),
        None => if required {
            None
        } else {
            Some("0"@)
        },
    }
}

/// The row of one array item: its seven text fields in the order of
/// `key_names`, or `None` when the item is not an object or lacks one.
pub open spec fn row_spec(item: Option<Seq<(Seq<char>, Option<Seq<char>>)>>, keys: RowKeys) -> Option<Seq<Seq<char>>> {
    match item {
        None => None,
        Some(obj) => {
            let n = key_names(keys);
            let oi = open_interest_field(obj, n[6], keys == RowKeys::Minute);
            if text_field(obj, n[0]) is Some && text_field(obj, n[1]) is Some && text_field(obj, n[2]) is Some
                && text_field(obj, n[3]) is Some && text_field(obj, n[4]) is Some && text_field(obj, n[5]) is Some
                && oi is Some {
                Some(seq![
                    text_field(obj, n[0])->0,
                    text_field(obj, n[1])->0,
                    text_field(obj, n[2])->0,
                    text_field(obj, n[3])->0,
                    text_field(obj, n[4])->0,
                    text_field(obj, n[5])->0,
                    oi->0,
                ])
            } else {
                None
            }
        },
    }
}

/// The rows of the items that have one, in item order.
pub open spec fn rows_spec(items: Seq<Option<Seq<(Seq<char>, Option<Seq<char>>)>>>, keys: RowKeys) -> Seq<Seq<Seq<char>>>
    decreases items.len(),
{
    if items.len() == 0 {
        Seq::empty()
    } else {
        let front = rows_spec(items.drop_last(), keys);
        match row_spec(items.last(), keys) {
            Some(r) => front.push(r),
            None => front,
        }
    }
}

/// One row of a history answer, its fields as text.
#[derive(Debug)]
pub struct HistoryRow {
    pub time: String,
    pub open: String,
    pub high: String,
    pub low: String,
    pub close: String,
    pub volume: String,
    pub open_interest: String,
}

impl View for HistoryRow {
    type V = Seq<Seq<char>>;

    /// The seven fields, in the order of `key_names`.
    open spec fn view(&self) -> Seq<Seq<char>> {
        seq![self.time@, self.open@, self.high@, self.low@, self.close@, self.volume@, self.open_interest@]
    }
}

/// The views of `rows`.
pub open spec fn row_views(rows: Seq<HistoryRow>) -> Seq<Seq<Seq<char>>> {
    rows.map_values(|r: HistoryRow| r@)
}

/// The rows of a history answer `text`, read with the field names `keys`.
///
/// Fails when the text has no array payload, when the payload is not JSON
/// (with serde_json's message after `JSON decode: `), or when it is not an
/// array; items that are not objects or lack a field are left out.
pub fn history_rows(text: &str, keys: RowKeys) -> (r: Result<Vec<HistoryRow>, Error>)
    ensures
        first_occurrence(text@, array_marker()) is None ==> (r matches Err(Error::Parse(m)) && m@
            == "no =([ pattern"@),
        first_occurrence(text@, array_marker()) is Some && extract_json_array_spec(text@) is None
            ==> (r matches Err(Error::Parse(m)) && m@ == "unmatched brackets"@),
        match extract_json_array_spec(text@) {
            None => r is Err,
            Some(body) => match json_rows(seq!['['] + body + seq![']']) {
                Err(e) => r matches Err(Error::Parse(m)) && m@ == "JSON decode: "@ + e,
                Ok(None) => r matches Err(Error::Parse(m)) && m@ == "not an array"@,
                Ok(Some(items)) => r matches Ok(rows) && row_views(rows@) == rows_spec(items, keys),
            },
        },
{
    let raw = extract_json_array(text)?;
    let mut w: Vec<char> = Vec::new();
    w.push('[');
    append_str(&mut w, raw);
    w.push(']');
    let wrapped = string_from_chars(w.as_slice());
    proof {
        assert(wrapped@ =~= seq!['['] + raw@ + seq![']']);
    }
    match parse_json_rows(wrapped.as_str()) {
        Err(e) => {
            let mut m: Vec<char> = Vec::new();
            append_str(&mut m, "JSON decode: ");
            append_str(&mut m, e.as_str());
            Err(Error::Parse(string_from_chars(m.as_slice())))
        },
        Ok(None) => Err(Error::Parse(String::from_str("not an array"))),
        Ok(Some(items)) => {
            let ghost iv = items.deep_view();
            let mut rows: Vec<HistoryRow> = Vec::new();
            let mut i: usize = 0;
            while i < items.len()
                invariant
                    i <= items@.len(),
                    iv == items.deep_view(),
                    row_views(rows@) == rows_spec(iv.take(i as int), keys),
                decreases items@.len() - i,
            {
                proof {
                    assert(iv.take(i + 1).drop_last() =~= iv.take(i as int));
                    assert(iv.take(i + 1).last() == items@[i as int].deep_view());
                }
                match row_of(&items[i], keys) {
                    Some(row) => {
                        let ghost before = rows@;
                        rows.push(row);
                        proof {
                            assert(row_views(rows@) =~= row_views(before).push(row@));
                        }
                    },
                    None => {},
                }
                i = i + 1;
            }
            proof {
                assert(iv.take(items@.len() as int) =~= iv);
            }
            Ok(rows)
        },
    }
}

/// The value stored under `key` in `obj`, as `lookup` reads it.
fn find_entry(obj: &Vec<(String, Option<String>)>, key: &str) -> (r: Option<Option<String>>)
    ensures
        r.deep_view() == lookup(obj.deep_view(), key@),
{
    let ghost ov = obj.deep_view();
    let mut found: Option<Option<String>> = None;
    let mut i: usize = 0;
    while i < obj.len()
        invariant
            i <= obj@.len(),
            ov == obj.deep_view(),
            found.deep_view() == lookup(ov.take(i as int), key@),
        decreases obj@.len() - i,
    {
        proof {
            assert(ov.take(i + 1).drop_last() =~= ov.take(i as int));
            assert(ov.take(i + 1).last() == obj@[i as int].deep_view());
        }
        if found.is_none() && str_eq(obj[i].0.as_str(), key) {
            found = Some(
                match &obj[i].1 {
                    Some(s) => Some(s.clone()),
                    None => None,
                },
            );
        }
        i = i + 1;
    }
    proof {
        assert(ov.take(obj@.len() as int) =~= ov);
    }
    found
}

/// The string stored under `key`, if any.
fn text_of(obj: &Vec<(String, Option<String>)>, key: &str) -> (r: Option<String>)
    ensures
        r.deep_view() == text_field(obj.deep_view(), key@),
{
    match find_entry(obj, key) {
        Some(Some(s)) => Some(s),
        _ => None,
    }
}

/// The row of one array item, as `row_spec` reads it.
fn row_of(item: &Option<Vec<(String, Option<String>)>>, keys: RowKeys) -> (r: Option<HistoryRow>)
    ensures
        match r {
            Some(row) => row_spec(item.deep_view(), keys) == Some(row@),
            None => row_spec(item.deep_view(), keys) is None,
        },
{
    let obj = match item {
        Some(o) => o,
        None => return None,
    };
    let n: [&str; 7] = match keys {
        RowKeys::Minute => ["d", "o", "h", "l", "c", "v", "p"],
        RowKeys::Daily => ["date", "open", "high", "low", "close", "volume", "position"],
    };
    proof {
        assert(forall|k: int| 0 <= k < 7 ==> #[trigger] n@[k]@ == key_names(keys)[k]);
    }
    let oi = match find_entry(obj, n[6]) {
        Some(Some(s)) => Some(s),
        Some(None) => Some(String::from_str("0")),
        None => match keys {
            RowKeys::Minute => None,
            RowKeys::Daily => Some(String::from_str("0")),
        },
    };
    let time = text_of(obj, n[0]);
    let open = text_of(obj, n[1]);
    let high = text_of(obj, n[2]);
    let low = text_of(obj, n[3]);
    let close = text_of(obj, n[4]);
    let volume = text_of(obj, n[5]);
    match (time, open, high, low, close, volume, oi) {
        (Some(time), Some(open), Some(high), Some(low), Some(close), Some(volume), Some(open_interest)) => {
            let row = HistoryRow { time, open, high, low, close, volume, open_interest };
            proof {
                assert(row@ =~= row_spec(item.deep_view(), keys)->0);
            }
            Some(row)
        },
        _ => None,
    }
}

/// Whether the bar slot of time stamp `datetime_ns` has a start that fits
/// in an `i64`.
pub open spec fn slot_fits(datetime_ns: i64, duration_seconds: u32) -> bool {
    i64::MIN <= bar_slot_spec(datetime_ns, duration_seconds).1
}

/// The rows placed in bar slots of `duration_seconds`: each row whose time's
/// slot start fits in an `i64`, keyed by the slot's id and paired with the
/// slot's start, in row order.
pub open spec fn slotted_spec(rows: Seq<HistoryRow>, duration_seconds: u32) -> Seq<(i64, (i64, HistoryRow))>
    decreases rows.len(),
{
    if rows.len() == 0 {
        Seq::empty()
    } else {
        let front = slotted_spec(rows.drop_last(), duration_seconds);
        let t = parse_datetime_spec(rows.last().time@);
        if slot_fits(t, duration_seconds) {
            let s = bar_slot_spec(t, duration_seconds);
            front.push((s.0 as i64, (s.1 as i64, rows.last())))
        } else {
            front
        }
    }
}

/// Places each row in the bar slot of its time; a row whose slot start does
/// not fit in an `i64` is left out.
pub fn slot_rows(rows: Vec<HistoryRow>, duration_seconds: u32) -> (r: Vec<(i64, (i64, HistoryRow))>)
    ensures
        r@ == slotted_spec(rows@, duration_seconds),
{
    let ghost src = rows@;
    let n = rows.len();
    let mut rows = rows;
    let mut rev: Vec<HistoryRow> = Vec::new();
    while rows.len() > 0
        invariant
            n == src.len(),
            rows@ == src.take(rows@.len() as int),
            rev@.len() + rows@.len() == n,
            forall|k: int| 0 <= k < rev@.len() ==> #[trigger] rev@[k] == src[n - 1 - k],
        decreases rows@.len(),
    {
        let ghost m = rows@.len();
        let x = rows.pop().unwrap();
        proof {
            assert(x == src[m - 1]);
            assert(rows@ =~= src.take(m - 1));
        }
        rev.push(x);
    }
    let mut out: Vec<(i64, (i64, HistoryRow))> = Vec::new();
    let mut i: usize = 0;
    proof {
        assert(src.take(0) =~= Seq::<HistoryRow>::empty());
    }
    while rev.len() > 0
        invariant
            n == src.len(),
            i + rev@.len() == n,
            forall|k: int| 0 <= k < rev@.len() ==> #[trigger] rev@[k] == src[n - 1 - k],
            out@ == slotted_spec(src.take(i as int), duration_seconds),
        decreases rev@.len(),
    {
        let ghost m = rev@.len();
        let row = rev.pop().unwrap();
        proof {
            assert(row == src[i as int]);
            assert(src.take(i + 1).drop_last() =~= src.take(i as int));
            assert(src.take(i + 1).last() == row);
        }
        let t = parse_datetime(row.time.as_str());
        let id = compute_bucket_id(t, duration_seconds);
        let d = duration_ns(duration_seconds);
        let fits = match id.checked_mul(d) {
            Some(_) => true,
            None => duration_seconds == 0,
        };
        proof {
            if duration_seconds == 0 {
                assert(slot_fits(t, duration_seconds));
            } else {
                let x = t as int;
                let dd = d as int;
                assert((id as int) * dd <= x) by (nonlinear_arith)
                    requires
                        dd >= 1,
                        id as int == x / dd,
                {
                }
            }
        }
        if fits {
            let s = bar_slot(t, duration_seconds);
            out.push((s.0, (s.1, row)));
        }
        i = i + 1;
    }
    proof {
        assert(src.take(n as int) =~= src);
    }
    out
}

} // verus!
