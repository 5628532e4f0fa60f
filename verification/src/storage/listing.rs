//! Summaries of the cache directory: one entry per cached series, in the
//! order of symbol (by its UTF-8 bytes) and period.

use vstd::prelude::*;
use vstd::utf8::encode_utf8;

use crate::storage::cache::SeriesEntryMeta;
use crate::storage::rangeset::{Range, sort_by_start, sorted_by_start, starts_at};
use crate::text::str_eq;

verus! {

broadcast use {vstd::seq_lib::group_to_multiset_ensures, vstd::utf8::group_utf8_lib};

/// Lexicographic order of byte strings (a proper prefix comes first).
pub open spec fn lex_lt(a: Seq<u8>, b: Seq<u8>) -> bool
    decreases a.len(),
{
    if a.len() == 0 {
        b.len() > 0
    } else if b.len() == 0 {
        false
    } else if a[0] != b[0] {
        a[0] < b[0]
    } else {
        lex_lt(a.drop_first(), b.drop_first())
    }
}

proof fn lemma_lex_irrefl(a: Seq<u8>)
    ensures
        !lex_lt(a, a),
    decreases a.len(),
{
    if a.len() > 0 {
        lemma_lex_irrefl(a.drop_first());
    }
}

proof fn lemma_lex_trans(a: Seq<u8>, b: Seq<u8>, c: Seq<u8>)
    requires
        lex_lt(a, b),
        lex_lt(b, c),
    ensures
        lex_lt(a, c),
    decreases a.len(),
{
    if a.len() > 0 && b.len() > 0 && c.len() > 0 && a[0] == b[0] && b[0] == c[0] {
        lemma_lex_trans(a.drop_first(), b.drop_first(), c.drop_first());
    }
}

proof fn lemma_lex_total(a: Seq<u8>, b: Seq<u8>)
    ensures
        a == b || lex_lt(a, b) || lex_lt(b, a),
    decreases a.len(),
{
    if a.len() > 0 && b.len() > 0 && a[0] == b[0] {
        lemma_lex_total(a.drop_first(), b.drop_first());
        if a.drop_first() == b.drop_first() {
            assert(a =~= seq![a[0]] + a.drop_first());
            assert(b =~= seq![b[0]] + b.drop_first());
        }
    } else if a.len() == 0 && b.len() == 0 {
        assert(a =~= b);
    }
}

/// Whether byte string `a` comes before `b`.
pub fn bytes_lt(a: &[u8], b: &[u8]) -> (r: bool)
    ensures
        r == lex_lt(a@, b@),
{
    let mut i: usize = 0;
    proof {
        assert(a@.skip(0) =~= a@);
        assert(b@.skip(0) =~= b@);
    }
    while i < a.len() && i < b.len() && a[i] == b[i]
        invariant
            i <= a@.len(),
            i <= b@.len(),
            lex_lt(a@, b@) == lex_lt(a@.skip(i as int), b@.skip(i as int)),
        decreases a@.len() - i,
    {
        proof {
            assert(a@.skip(i as int).drop_first() =~= a@.skip(i + 1));
            assert(b@.skip(i as int).drop_first() =~= b@.skip(i + 1));
        }
        i = i + 1;
    }
    if i == a.len() {
        i < b.len()
    } else if i == b.len() {
        false
    } else {
        a[i] < b[i]
    }
}

/// A series key: symbol and period in nanoseconds.
pub open spec fn key_lt(a: (Seq<char>, i64), b: (Seq<char>, i64)) -> bool {
    lex_lt(encode_utf8(a.0), encode_utf8(b.0)) || (a.0 == b.0 && a.1 < b.1)
}

proof fn lemma_key_order(a: (Seq<char>, i64), b: (Seq<char>, i64), c: (Seq<char>, i64))
    ensures
        !key_lt(a, a),
        key_lt(a, b) && key_lt(b, c) ==> key_lt(a, c),
        a == b || key_lt(a, b) || key_lt(b, a),
        key_lt(a, b) ==> !key_lt(b, a),
{
    lemma_lex_irrefl(encode_utf8(a.0));
    lemma_lex_total(encode_utf8(a.0), encode_utf8(b.0));
    if lex_lt(encode_utf8(a.0), encode_utf8(b.0)) && lex_lt(encode_utf8(b.0), encode_utf8(c.0)) {
        lemma_lex_trans(encode_utf8(a.0), encode_utf8(b.0), encode_utf8(c.0));
    }
    if lex_lt(encode_utf8(a.0), encode_utf8(b.0)) && lex_lt(encode_utf8(b.0), encode_utf8(a.0)) {
        lemma_lex_trans(encode_utf8(a.0), encode_utf8(b.0), encode_utf8(a.0));
    }
    if encode_utf8(a.0) == encode_utf8(b.0) {
        vstd::utf8::encode_utf8_decode_utf8(a.0);
        vstd::utf8::encode_utf8_decode_utf8(b.0);
        assert(a.0 == b.0);
    }
}

fn key_less(a_sym: &str, a_d: i64, b_sym: &str, b_d: i64) -> (r: bool)
    ensures
        r == key_lt((a_sym@, a_d), (b_sym@, b_d)),
{
    if bytes_lt(a_sym.as_bytes(), b_sym.as_bytes()) {
        return true;
    }
    str_eq(a_sym, b_sym) && a_d < b_d
}

/// One segment file as listed: symbol, period, id range and modification
/// time in seconds since the epoch.
pub type ListedFile = (String, i64, Range, u64);

/// The key of a listed file.
pub open spec fn file_key(f: ListedFile) -> (Seq<char>, i64) {
    (f.0@, f.1)
}

/// The bars a segment holds: its id span, 0 when empty.
pub open spec fn span(r: Range) -> int {
    if r.1 - r.0 > 0 {
        r.1 - r.0
    } else {
        0
    }
}

/// The ranges of the files of `key`, in listing order.
pub open spec fn key_ranges(files: Seq<ListedFile>, key: (Seq<char>, i64)) -> Seq<Range>
    decreases files.len(),
{
    if files.len() == 0 {
        Seq::empty()
    } else if file_key(files.last()) == key {
        key_ranges(files.drop_last(), key).push(files.last().2)
    } else {
        key_ranges(files.drop_last(), key)
    }
}

/// The bars held by the files of `key`.
pub open spec fn key_bars(files: Seq<ListedFile>, key: (Seq<char>, i64)) -> int
    decreases files.len(),
{
    if files.len() == 0 {
        0
    } else if file_key(files.last()) == key {
        key_bars(files.drop_last(), key) + span(files.last().2)
    } else {
        key_bars(files.drop_last(), key)
    }
}

/// The newest modification time among the files of `key` (0 for none).
pub open spec fn key_updated(files: Seq<ListedFile>, key: (Seq<char>, i64)) -> u64
    decreases files.len(),
{
    if files.len() == 0 {
        0
    } else if file_key(files.last()) == key {
        let rest = key_updated(files.drop_last(), key);
        if files.last().3 > rest {
            files.last().3
        } else {
            rest
        }
    } else {
        key_updated(files.drop_last(), key)
    }
}

/// Each segment's id span and each series' bar total fit the machine.
pub open spec fn listing_fits(files: Seq<ListedFile>) -> bool {
    &&& forall|i: int| 0 <= i < files.len() ==> #[trigger] files[i].2.0 < files[i].2.1
    &&& forall|i: int| 0 <= i < files.len() ==> #[trigger] files[i].2.1 - files[i].2.0 <= i64::MAX
    &&& forall|i: int| 0 <= i < files.len() ==> #[trigger] key_bars(files, file_key(files[i])) <= usize::MAX
}

/// The key of a `(symbol, period)` pair.
pub open spec fn key_of(k: (String, i64)) -> (Seq<char>, i64) {
    (k.0@, k.1)
}

/// Some listed file has key `key`.
pub open spec fn has_file(files: Seq<ListedFile>, key: (Seq<char>, i64)) -> bool {
    exists|k: int| 0 <= k < files.len() && file_key(#[trigger] files[k]) == key
}

/// Some key of `keys` is `key`.
pub open spec fn has_key(keys: Seq<(String, i64)>, key: (Seq<char>, i64)) -> bool {
    exists|a: int| 0 <= a < keys.len() && key_of(#[trigger] keys[a]) == key
}

/// Some entry of `entries` has key `key`.
pub open spec fn has_entry(entries: Seq<SeriesEntryMeta>, key: (Seq<char>, i64)) -> bool {
    exists|a: int| 0 <= a < entries.len() && entry_key(#[trigger] entries[a]) == key
}

/// The key of an entry.
pub open spec fn entry_key(e: SeriesEntryMeta) -> (Seq<char>, i64) {
    (e.symbol@, e.duration_ns)
}

proof fn lemma_key_bars_prefix(files: Seq<ListedFile>, k: int, key: (Seq<char>, i64))
    requires
        0 <= k <= files.len(),
    ensures
        0 <= key_bars(files.take(k), key) <= key_bars(files, key),
    decreases files.len() - k,
{
    lemma_key_bars_nonneg(files.take(k), key);
    if k < files.len() {
        lemma_key_bars_prefix(files, k + 1, key);
        let t = files.take(k + 1);
        assert(t.drop_last() =~= files.take(k));
        assert(span(t.last().2) >= 0);
        assert(key_bars(t, key) >= key_bars(t.drop_last(), key));
    } else {
        assert(files.take(k) =~= files);
        lemma_key_bars_nonneg(files, key);
    }
}

proof fn lemma_key_bars_nonneg(files: Seq<ListedFile>, key: (Seq<char>, i64))
    ensures
        key_bars(files, key) >= 0,
    decreases files.len(),
{
    if files.len() > 0 {
        lemma_key_bars_nonneg(files.drop_last(), key);
    }
}

/// The distinct keys of the listing, in key order.
fn distinct_keys(files: &[ListedFile]) -> (keys: Vec<(String, i64)>)
    ensures
        forall|a: int, b: int| 0 <= a < b < keys@.len() ==> key_lt((#[trigger] keys@[a].0@, keys@[a].1), (#[trigger] keys@[b].0@, keys@[b].1)),
        forall|a: int| 0 <= a < keys@.len() ==> has_file(files@, key_of(#[trigger] keys@[a])),
        forall|k: int| 0 <= k < files@.len() ==> has_key(keys@, file_key(#[trigger] files@[k])),
{
    let n = files.len();
    let mut keys: Vec<(String, i64)> = Vec::new();
    let mut i: usize = 0;
    while i < n
        invariant
            n == files@.len(),
            i <= n,
            forall|a: int, b: int| 0 <= a < b < keys@.len() ==> key_lt((#[trigger] keys@[a].0@, keys@[a].1), (#[trigger] keys@[b].0@, keys@[b].1)),
            forall|a: int| 0 <= a < keys@.len() ==> has_file(files@, key_of(#[trigger] keys@[a])),
            forall|k: int| 0 <= k < i ==> has_key(keys@, file_key(#[trigger] files@[k])),
        decreases n - i,
    {
        let f = &files[i];
        let mut pos: usize = 0;
        while pos < keys.len() && key_less(keys[pos].0.as_str(), keys[pos].1, f.0.as_str(), f.1)
            invariant
                pos <= keys@.len(),
                i < n,
                n == files@.len(),
                *f == files@[i as int],
                forall|a: int| 0 <= a < pos ==> key_lt((#[trigger] keys@[a].0@, keys@[a].1), file_key(files@[i as int])),
            decreases keys@.len() - pos,
        {
            pos = pos + 1;
        }
        let ghost fk = file_key(files@[i as int]);
        if pos < keys.len() && str_eq(keys[pos].0.as_str(), f.0.as_str()) && keys[pos].1 == f.1 {
            proof {
                assert(key_of(keys@[pos as int]) == fk);
                assert forall|k: int| 0 <= k < i + 1 implies has_key(keys@, file_key(#[trigger] files@[k])) by {
                    if k == i {
                        assert(key_of(keys@[pos as int]) == file_key(files@[k]));
                    }
                }
            }
        } else {
            let ghost before = keys@;
            proof {
                if pos < before.len() {
                    lemma_key_order((before[pos as int].0@, before[pos as int].1), fk, fk);
                    assert(key_lt(fk, (before[pos as int].0@, before[pos as int].1)));
                }
                assert forall|a: int| pos <= a < before.len() implies key_lt(fk, (#[trigger] before[a].0@, before[a].1)) by {
                    if a > pos {
                        lemma_key_order(fk, (before[pos as int].0@, before[pos as int].1), (before[a].0@, before[a].1));
                    }
                }
            }
            keys.insert(pos, (f.0.clone(), f.1));
            proof {
                assert(keys@[pos as int].0@ == f.0@);
                assert forall|a: int, b: int| 0 <= a < b < keys@.len() implies key_lt((#[trigger] keys@[a].0@, keys@[a].1), (#[trigger] keys@[b].0@, keys@[b].1)) by {
                    if b < pos {
                        assert(keys@[a] == before[a] && keys@[b] == before[b]);
                    } else if b == pos {
                        assert(keys@[a] == before[a]);
                    } else if a < pos {
                        assert(keys@[a] == before[a] && keys@[b] == before[b - 1]);
                        lemma_key_order((before[a].0@, before[a].1), fk, (before[b - 1].0@, before[b - 1].1));
                    } else if a == pos {
                        assert(keys@[b] == before[b - 1]);
                    } else {
                        assert(keys@[a] == before[a - 1] && keys@[b] == before[b - 1]);
                    }
                }
                assert forall|a: int| 0 <= a < keys@.len() implies has_file(files@, key_of(#[trigger] keys@[a])) by {
                    if a < pos {
                        assert(keys@[a] == before[a]);
                    } else if a > pos {
                        assert(keys@[a] == before[a - 1]);
                    } else {
                        assert(file_key(files@[i as int]) == key_of(keys@[a]));
                    }
                }
                assert forall|k: int| 0 <= k < i + 1 implies has_key(keys@, file_key(#[trigger] files@[k])) by {
                    if k == i {
                        assert(key_of(keys@[pos as int]) == file_key(files@[k]));
                    } else {
                        assert(has_key(before, file_key(files@[k])));
                        let a = choose|a: int| 0 <= a < before.len() && key_of(#[trigger] before[a]) == file_key(files@[k]);
                        if a < pos {
                            assert(keys@[a] == before[a]);
                        } else {
                            assert(keys@[a + 1] == before[a]);
                        }
                    }
                }
            }
        }
        i = i + 1;
    }
    keys
}

/// The entry of series `(sym, d)`, which some listed file belongs to.
fn summarize_key(files: &[ListedFile], sym: &String, d: i64) -> (e: SeriesEntryMeta)
    requires
        listing_fits(files@),
        has_file(files@, (sym@, d)),
    ensures
        entry_key(e) == (sym@, d),
        sorted_by_start(e.ranges@),
        e.ranges@.to_multiset() == key_ranges(files@, (sym@, d)).to_multiset(),
        forall|st: i64| #[trigger] e.ranges@.filter(starts_at(st)) == key_ranges(files@, (sym@, d)).filter(starts_at(st)),
        e.bar_count == key_bars(files@, (sym@, d)),
        e.updated_at == key_updated(files@, (sym@, d)),
{
    let n = files.len();
    let ghost key = (sym@, d);
    let ghost ka = choose|k: int| 0 <= k < files@.len() && file_key(#[trigger] files@[k]) == (sym@, d);
    let mut ranges: Vec<Range> = Vec::new();
    let mut bars: usize = 0;
    let mut updated: u64 = 0;
    let mut i: usize = 0;
    proof {
        assert(files@.take(0) =~= Seq::<ListedFile>::empty());
    }
    while i < n
        invariant
            n == files@.len(),
            listing_fits(files@),
            i <= n,
            0 <= ka < n,
            file_key(files@[ka]) == key,
            key == (sym@, d),
            ranges@ == key_ranges(files@.take(i as int), key),
            bars == key_bars(files@.take(i as int), key),
            updated == key_updated(files@.take(i as int), key),
        decreases n - i,
    {
        let f = &files[i];
        let ghost pre = files@.take(i as int);
        let ghost post = files@.take(i + 1);
        proof {
            assert(post.drop_last() =~= pre);
            assert(post.last() == files@[i as int]);
            lemma_key_bars_prefix(files@, i + 1, key);
            assert(key_bars(files@, file_key(files@[ka])) <= usize::MAX);
            assert(files@[i as int].2.1 - files@[i as int].2.0 <= i64::MAX);
        }
        if str_eq(f.0.as_str(), sym.as_str()) && f.1 == d {
            ranges.push(f.2);
            let s = f.2.1 - f.2.0;
            if s > 0 {
                proof {
                    assert(key_bars(post, key) == bars + s);
                }
                bars = bars + (s as usize);
            }
            if f.3 > updated {
                updated = f.3;
            }
        }
        i = i + 1;
    }
    proof {
        assert(files@.take(n as int) =~= files@);
    }
    let sorted = sort_by_start(&ranges);
    SeriesEntryMeta { symbol: sym.clone(), duration_ns: d, ranges: sorted, updated_at: updated, bar_count: bars }
}

/// One entry per series of the listing, ordered by symbol bytes and period:
/// each with its segments' ranges ordered by start (equal starts in listing order), its bar total and its
/// newest modification time.
pub fn group_entries(files: &[ListedFile]) -> (entries: Vec<SeriesEntryMeta>)
    requires
        listing_fits(files@),
    ensures
        forall|a: int, b: int| 0 <= a < b < entries@.len() ==> key_lt(entry_key(#[trigger] entries@[a]), entry_key(#[trigger] entries@[b])),
        forall|a: int| 0 <= a < entries@.len() ==> {
            let e = #[trigger] entries@[a];
            &&& has_file(files@, entry_key(e))
            &&& sorted_by_start(e.ranges@)
            &&& e.ranges@.to_multiset() == key_ranges(files@, entry_key(e)).to_multiset()
            &&& forall|st: i64| #[trigger] e.ranges@.filter(starts_at(st)) == key_ranges(files@, entry_key(e)).filter(starts_at(st))
            &&& e.bar_count == key_bars(files@, entry_key(e))
            &&& e.updated_at == key_updated(files@, entry_key(e))
        },
        forall|i: int| 0 <= i < files@.len() ==> has_entry(entries@, file_key(#[trigger] files@[i])),
{
    let keys = distinct_keys(files);
    let mut entries: Vec<SeriesEntryMeta> = Vec::new();
    let mut j: usize = 0;
    while j < keys.len()
        invariant
            listing_fits(files@),
            j <= keys@.len(),
            entries@.len() == j,
            forall|a: int| 0 <= a < keys@.len() ==> has_file(files@, key_of(#[trigger] keys@[a])),
            forall|a: int| 0 <= a < j ==> entry_key(#[trigger] entries@[a]) == key_of(keys@[a]),
            forall|a: int| 0 <= a < j ==> {
                let e = #[trigger] entries@[a];
                &&& sorted_by_start(e.ranges@)
                &&& e.ranges@.to_multiset() == key_ranges(files@, entry_key(e)).to_multiset()
                &&& forall|st: i64| #[trigger] e.ranges@.filter(starts_at(st)) == key_ranges(files@, entry_key(e)).filter(starts_at(st))
                &&& e.bar_count == key_bars(files@, entry_key(e))
                &&& e.updated_at == key_updated(files@, entry_key(e))
            },
        decreases keys@.len() - j,
    {
        proof {
            assert(has_file(files@, key_of(keys@[j as int])));
        }
        let e = summarize_key(files, &keys[j].0, keys[j].1);
        entries.push(e);
        j = j + 1;
    }
    proof {
        assert forall|a: int, b: int| 0 <= a < b < entries@.len() implies key_lt(entry_key(#[trigger] entries@[a]), entry_key(#[trigger] entries@[b])) by {
            assert(key_lt((keys@[a].0@, keys@[a].1), (keys@[b].0@, keys@[b].1)));
        }
        assert forall|a: int| 0 <= a < entries@.len() implies {
            let e = #[trigger] entries@[a];
            &&& has_file(files@, entry_key(e))
            &&& sorted_by_start(e.ranges@)
            &&& e.ranges@.to_multiset() == key_ranges(files@, entry_key(e)).to_multiset()
            &&& forall|st: i64| #[trigger] e.ranges@.filter(starts_at(st)) == key_ranges(files@, entry_key(e)).filter(starts_at(st))
            &&& e.bar_count == key_bars(files@, entry_key(e))
            &&& e.updated_at == key_updated(files@, entry_key(e))
        } by {
            assert(has_file(files@, key_of(keys@[a])));
        }
        assert forall|i: int| 0 <= i < files@.len() implies has_entry(entries@, file_key(#[trigger] files@[i])) by {
            assert(has_key(keys@, file_key(files@[i])));
            let a = choose|a: int| 0 <= a < keys@.len() && key_of(#[trigger] keys@[a]) == file_key(files@[i]);
            assert(entry_key(entries@[a]) == file_key(files@[i]));
        }
    }
    entries
}

} // verus!
