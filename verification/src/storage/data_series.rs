//! Naming and planning rules of the segment cache.
//!
//! Each segment file holds the bars of one contiguous id range of one series
//! and is named `<symbol>.<duration_ns>.<start_id>.<end_id>`. Bars are fixed
//! size records, so a bar is found by its offset from the segment start.

use vstd::prelude::*;

use crate::storage::rangeset::Range;
use crate::text::{
    append_chars, chars_of, decimal, decimal_int, format_i64, is_digit, parse_i64, parse_i64_spec,
    string_from_chars,
};

verus! {

/// Size in bytes of one stored bar: eight 8-byte fields.
pub const BAR_RECORD_SIZE: u64 = 64;

/// `s` followed by `'.'` and `t`.
pub open spec fn dotted(s: Seq<char>, t: Seq<char>) -> Seq<char> {
    s + seq!['.'] + t
}

/// The file name of the segment holding ids `range` of a series.
pub open spec fn data_file_name_spec(symbol: Seq<char>, duration_ns: i64, range: Range) -> Seq<char> {
    dotted(
        dotted(dotted(symbol, decimal_int(duration_ns as int)), decimal_int(range.0 as int)),
        decimal_int(range.1 as int),
    )
}

/// `"<symbol>.<duration_ns>.<start>.<end>"`.
pub fn data_file_name(symbol: &str, duration_ns: i64, range: Range) -> (name: String)
    ensures
        name@ == data_file_name_spec(symbol@, duration_ns, range),
{
    let mut v = chars_of(symbol);
    v.push('.');
    let d = format_i64(duration_ns);
    append_chars(&mut v, d.as_slice());
    v.push('.');
    let s = format_i64(range.0);
    append_chars(&mut v, s.as_slice());
    v.push('.');
    let e = format_i64(range.1);
    append_chars(&mut v, e.as_slice());
    proof {
        assert(v@ =~= data_file_name_spec(symbol@, duration_ns, range));
    }
    string_from_chars(v.as_slice())
}

/// `"<symbol>.<duration_ns>.temp"`, where a segment is written before it is
/// renamed into place.
pub fn temp_file_name(symbol: &str, duration_ns: i64) -> (name: String)
    ensures
        name@ == dotted(symbol@, decimal_int(duration_ns as int)) + seq!['.', 't', 'e', 'm', 'p'],
{
    let mut v = chars_of(symbol);
    v.push('.');
    let d = format_i64(duration_ns);
    append_chars(&mut v, d.as_slice());
    v.push('.');
    v.push('t');
    v.push('e');
    v.push('m');
    v.push('p');
    proof {
        assert(v@ =~= dotted(symbol@, decimal_int(duration_ns as int)) + seq!['.', 't', 'e', 'm', 'p']);
    }
    string_from_chars(v.as_slice())
}

/// `".<symbol>.<duration_ns>.lock"`, the lock file of a series.
pub fn lock_file_name(symbol: &str, duration_ns: i64) -> (name: String)
    ensures
        name@ == seq!['.'] + dotted(symbol@, decimal_int(duration_ns as int)) + seq![
            '.',
            'l',
            'o',
            'c',
            'k',
        ],
{
    let mut v: Vec<char> = Vec::new();
    v.push('.');
    let sym = chars_of(symbol);
    append_chars(&mut v, sym.as_slice());
    v.push('.');
    let d = format_i64(duration_ns);
    append_chars(&mut v, d.as_slice());
    v.push('.');
    v.push('l');
    v.push('o');
    v.push('c');
    v.push('k');
    proof {
        assert(v@ =~= seq!['.'] + dotted(symbol@, decimal_int(duration_ns as int)) + seq![
            '.',
            'l',
            'o',
            'c',
            'k',
        ]);
    }
    string_from_chars(v.as_slice())
}

/// Whether `s` ends with `p`.
pub open spec fn has_suffix(s: Seq<char>, p: Seq<char>) -> bool {
    p.len() <= s.len() && s.subrange(s.len() - p.len(), s.len() as int) == p
}

/// The index of the last `'.'` before index `k`, or -1 when there is none.
pub open spec fn last_dot_before(s: Seq<char>, k: int) -> int
    decreases k,
{
    if k <= 0 {
        -1
    } else if s[k - 1] == '.' {
        k - 1
    } else {
        last_dot_before(s, k - 1)
    }
}

/// The series and id range a segment file name stands for; `None` for lock
/// files, temporary files, hidden files and names of any other shape.
pub open spec fn parse_data_file_name_spec(f: Seq<char>) -> Option<(Seq<char>, i64, Range)> {
    if (f.len() > 0 && f[0] == '.') || has_suffix(f, seq!['.', 'l', 'o', 'c', 'k']) || has_suffix(
        f,
        seq!['.', 't', 'e', 'm', 'p'],
    ) {
        None
    } else {
        let p1 = last_dot_before(f, f.len() as int);
        let p2 = last_dot_before(f, p1);
        let p3 = last_dot_before(f, p2);
        if p3 < 0 {
            None
        } else {
            match (
                parse_i64_spec(f.subrange(p1 + 1, f.len() as int)),
                parse_i64_spec(f.subrange(p2 + 1, p1)),
                parse_i64_spec(f.subrange(p3 + 1, p2)),
            ) {
                (Some(end), Some(start), Some(d)) => if start >= end || p3 == 0 {
                    None
                } else {
                    Some((f.subrange(0, p3), d, (start, end)))
                },
                _ => None,
            }
        }
    }
}

fn suffix_is(v: &Vec<char>, p: &[char]) -> (b: bool)
    ensures
        b == has_suffix(v@, p@),
{
    if p.len() > v.len() {
        return false;
    }
    let off = v.len() - p.len();
    let mut i: usize = 0;
    while i < p.len()
        invariant
            p@.len() <= v@.len() <= usize::MAX,
            off == v@.len() - p@.len(),
            i <= p@.len(),
            forall|k: int| 0 <= k < i ==> v@[off + k] == p@[k],
        decreases p.len() - i,
    {
        if v[off + i] != p[i] {
            proof {
                assert(v@.subrange(off as int, v@.len() as int)[i as int] == v@[off + i]);
            }
            return false;
        }
        i = i + 1;
    }
    proof {
        assert(v@.subrange(off as int, v@.len() as int) =~= p@);
    }
    true
}

fn find_last_dot(v: &Vec<char>, k: usize) -> (r: Option<usize>)
    requires
        k <= v@.len(),
    ensures
        match r {
            Some(i) => i as int == last_dot_before(v@, k as int) && i < k,
            None => last_dot_before(v@, k as int) == -1,
        },
    decreases k,
{
    if k == 0 {
        return None;
    }
    if v[k - 1] == '.' {
        return Some(k - 1);
    }
    find_last_dot(v, k - 1)
}

fn sub_chars(v: &Vec<char>, a: usize, b: usize) -> (r: Vec<char>)
    requires
        a <= b <= v@.len(),
    ensures
        r@ == v@.subrange(a as int, b as int),
{
    let mut r: Vec<char> = Vec::new();
    let mut i = a;
    while i < b
        invariant
            a <= i <= b <= v@.len(),
            r@ == v@.subrange(a as int, i as int),
        decreases b - i,
    {
        r.push(v[i]);
        proof {
            assert(v@.subrange(a as int, i + 1) =~= v@.subrange(a as int, i as int).push(v@[i as int]));
        }
        i = i + 1;
    }
    r
}

/// Reads `(symbol, duration_ns, (start_id, end_id))` back from a segment
/// file name.
pub fn parse_data_file_name(filename: &str) -> (r: Option<(String, i64, Range)>)
    ensures
        match r {
            Some((sym, d, range)) => parse_data_file_name_spec(filename@) == Some((sym@, d, range)),
            None => parse_data_file_name_spec(filename@) is None,
        },
{
    let v = chars_of(filename);
    let lock_suffix: [char; 5] = ['.', 'l', 'o', 'c', 'k'];
    let temp_suffix: [char; 5] = ['.', 't', 'e', 'm', 'p'];
    proof {
        assert(lock_suffix@ =~= seq!['.', 'l', 'o', 'c', 'k']);
        assert(temp_suffix@ =~= seq!['.', 't', 'e', 'm', 'p']);
    }
    if (v.len() > 0 && v[0] == '.') || suffix_is(&v, &lock_suffix) || suffix_is(&v, &temp_suffix) {
        return None;
    }
    let p1 = match find_last_dot(&v, v.len()) {
        Some(i) => i,
        None => {
            return None;
        },
    };
    let p2 = match find_last_dot(&v, p1) {
        Some(i) => i,
        None => {
            return None;
        },
    };
    let p3 = match find_last_dot(&v, p2) {
        Some(i) => i,
        None => {
            return None;
        },
    };
    let end_text = sub_chars(&v, p1 + 1, v.len());
    let end = match parse_i64(end_text.as_slice()) {
        Some(x) => x,
        None => {
            return None;
        },
    };
    let start_text = sub_chars(&v, p2 + 1, p1);
    let start = match parse_i64(start_text.as_slice()) {
        Some(x) => x,
        None => {
            return None;
        },
    };
    let dur_text = sub_chars(&v, p3 + 1, p2);
    let duration_ns = match parse_i64(dur_text.as_slice()) {
        Some(x) => x,
        None => {
            return None;
        },
    };
    if start >= end {
        return None;
    }
    if p3 == 0 {
        return None;
    }
    let sym = sub_chars(&v, 0, p3);
    Some((string_from_chars(sym.as_slice()), duration_ns, (start, end)))
}

proof fn lemma_decimal_no_dot(n: nat)
    ensures
        forall|i: int| 0 <= i < decimal(n).len() ==> #[trigger] decimal(n)[i] != '.',
        decimal(n).len() > 0,
        is_digit(decimal(n).last()),
    decreases n,
{
    if n >= 10 {
        lemma_decimal_no_dot(n / 10);
        let d = decimal(n);
        assert forall|i: int| 0 <= i < d.len() implies #[trigger] d[i] != '.' by {
            if i < d.len() - 1 {
                assert(d[i] == decimal(n / 10)[i]);
            }
        }
    }
}

proof fn lemma_decimal_int_no_dot(x: int)
    ensures
        forall|i: int| 0 <= i < decimal_int(x).len() ==> #[trigger] decimal_int(x)[i] != '.',
        decimal_int(x).len() > 0,
        is_digit(decimal_int(x).last()),
{
    if x < 0 {
        lemma_decimal_no_dot((-x) as nat);
        let d = decimal_int(x);
        let m = decimal((-x) as nat);
        assert forall|i: int| 0 <= i < d.len() implies #[trigger] d[i] != '.' by {
            if i > 0 {
                assert(d[i] == m[i - 1]);
            }
        }
        assert(d.last() == m.last());
    } else {
        lemma_decimal_no_dot(x as nat);
    }
}

proof fn lemma_last_dot_at(s: Seq<char>, k: int, j: int)
    requires
        0 <= j < k <= s.len(),
        s[j] == '.',
        forall|i: int| j < i < k ==> #[trigger] s[i] != '.',
    ensures
        last_dot_before(s, k) == j,
    decreases k,
{
    if k - 1 != j {
        lemma_last_dot_at(s, k - 1, j);
    }
}

/// A segment file name reads back as the series and range it was made from,
/// for any symbol that is not empty and does not start with `'.'`.
pub proof fn lemma_data_file_name_roundtrip(symbol: Seq<char>, duration_ns: i64, range: Range)
    requires
        symbol.len() > 0,
        symbol[0] != '.',
        range.0 < range.1,
    ensures
        parse_data_file_name_spec(data_file_name_spec(symbol, duration_ns, range)) == Some(
            (symbol, duration_ns, range),
        ),
{
    let a = decimal_int(duration_ns as int);
    let b = decimal_int(range.0 as int);
    let c = decimal_int(range.1 as int);
    lemma_decimal_int_no_dot(duration_ns as int);
    lemma_decimal_int_no_dot(range.0 as int);
    lemma_decimal_int_no_dot(range.1 as int);
    crate::text::lemma_parse_formatted_i64(duration_ns);
    crate::text::lemma_parse_formatted_i64(range.0);
    crate::text::lemma_parse_formatted_i64(range.1);
    let f = data_file_name_spec(symbol, duration_ns, range);
    let n3 = symbol.len() as int;
    let n2 = n3 + 1 + a.len();
    let n1 = n2 + 1 + b.len();
    assert(f.len() == n1 + 1 + c.len());
    assert(f =~= symbol + seq!['.'] + a + seq!['.'] + b + seq!['.'] + c);
    assert(f[n3] == '.');
    assert(f[n2] == '.');
    assert(f[n1] == '.');
    assert forall|i: int| n1 < i < f.len() implies #[trigger] f[i] != '.' by {
        assert(f[i] == c[i - n1 - 1]);
    }
    assert forall|i: int| n2 < i < n1 implies #[trigger] f[i] != '.' by {
        assert(f[i] == b[i - n2 - 1]);
    }
    assert forall|i: int| n3 < i < n2 implies #[trigger] f[i] != '.' by {
        assert(f[i] == a[i - n3 - 1]);
    }
    lemma_last_dot_at(f, f.len() as int, n1);
    lemma_last_dot_at(f, n1, n2);
    lemma_last_dot_at(f, n2, n3);
    assert(f.subrange(n1 + 1, f.len() as int) =~= c);
    assert(f.subrange(n2 + 1, n1) =~= b);
    assert(f.subrange(n3 + 1, n2) =~= a);
    assert(f.subrange(0, n3) =~= symbol);
    assert(f[0] == symbol[0]);
    assert(f.last() == c.last());
    let l = seq!['.', 'l', 'o', 'c', 'k'];
    let t = seq!['.', 't', 'e', 'm', 'p'];
    if has_suffix(f, l) {
        assert(f.subrange(f.len() - 5, f.len() as int)[4] == f.last());
        assert(!is_digit('k'));
    }
    if has_suffix(f, t) {
        assert(f.subrange(f.len() - 5, f.len() as int)[4] == f.last());
        assert(!is_digit('p'));
    }
}

} // verus!
