//! Decisions of the history cache: the keys it files series under, which
//! ids it still lacks, and how a live quote moves the pending newest bar of
//! a long-period series.

use vstd::prelude::*;

use crate::data::types::Duration;
use crate::storage::rangeset::{
    Range, RangeSet, all_proper, canonical, interval, points, rangeset_difference,
};
use crate::text::{append_chars, chars_of, decimal, format_u64, string_from_chars};

verus! {

/// The key of one cached series.
#[derive(Debug, Clone, PartialEq, Eq, Hash)]
pub struct CacheKey {
    pub symbol: String,
    pub duration: Duration,
}

impl CacheKey {
    /// The key of `symbol` at period `duration`.
    pub fn new(symbol: &str, duration: Duration) -> (k: CacheKey)
        ensures
            k.symbol@ == symbol@,
            k.duration == duration,
    {
        CacheKey { symbol: String::from_str(symbol), duration }
    }

    /// `"<symbol>_<seconds>.bin"`, the file name of the key in the older
    /// one-file-per-series layout.
    pub fn cache_filename(&self) -> (name: String)
        ensures
            name@ == self.symbol@ + seq!['_'] + decimal((self.duration.ns / 1_000_000_000) as nat)
                + seq!['.', 'b', 'i', 'n'],
    {
        let mut v = chars_of(self.symbol.as_str());
        v.push('_');
        let d = format_u64(self.duration.as_secs());
        append_chars(&mut v, d.as_slice());
        v.push('.');
        v.push('b');
        v.push('i');
        v.push('n');
        proof {
            assert(v@ =~= self.symbol@ + seq!['_'] + decimal((self.duration.ns / 1_000_000_000) as nat)
                + seq!['.', 'b', 'i', 'n']);
        }
        string_from_chars(v.as_slice())
    }
}

/// What the cache holds of one series.
#[derive(Debug, Clone)]
pub struct CacheEntryMeta {
    pub symbol: String,
    pub duration: Duration,
    pub ranges: RangeSet,
    pub updated_at: u64,
    pub bar_count: usize,
}

/// The index of the older cache layout, keyed by file name.
#[derive(Debug, Clone)]
pub struct CacheIndex {
    pub version: u32,
    pub entries: std::collections::HashMap<String, CacheEntryMeta>,
}

impl CacheIndex {
    /// An empty index of format version 1.
    pub fn new() -> (idx: CacheIndex)
        ensures
            idx.version == 1,
            idx.entries@ == Map::<String, CacheEntryMeta>::empty(),
    {
        CacheIndex { version: 1, entries: std::collections::HashMap::new() }
    }
}

/// Totals over the cached series.
#[derive(Debug, Clone)]
pub struct CacheStats {
    pub total_entries: usize,
    pub total_bars: usize,
    pub entries: Vec<CacheEntryMeta>,
}

/// One series as found on disk: its segments' ranges, the newest
/// modification time (seconds since the epoch) and the number of bars.
#[derive(Debug, Clone)]
pub struct SeriesEntryMeta {
    pub symbol: String,
    pub duration_ns: i64,
    pub ranges: Vec<Range>,
    pub updated_at: u64,
    pub bar_count: usize,
}

/// The key of the pending bar of one series.
#[derive(Debug, Clone, PartialEq, Eq, Hash)]
pub struct PendingKey {
    pub symbol: String,
    pub duration_ns: i64,
}

impl PendingKey {
    /// The pending key of `symbol` at `duration_ns`.
    pub fn new(symbol: &str, duration_ns: i64) -> (k: PendingKey)
        ensures
            k.symbol@ == symbol@,
            k.duration_ns == duration_ns,
    {
        PendingKey { symbol: String::from_str(symbol), duration_ns }
    }
}

/// The period of a key in nanoseconds, 0 when it does not fit in an `i64`.
pub open spec fn series_duration_ns_spec(key: CacheKey) -> i64 {
    if key.duration.ns <= i64::MAX {
        key.duration.ns as i64
    } else {
        0
    }
}

/// The period of `key` in nanoseconds as the segment files name it.
pub fn series_duration_ns(key: &CacheKey) -> (d: i64)
    ensures
        d == series_duration_ns_spec(*key),
{
    if key.duration.ns <= 9_223_372_036_854_775_807u64 {
        key.duration.ns as i64
    } else {
        0
    }
}

/// The bucket a quote time (in seconds) falls in for a period given in
/// nanoseconds; `None` for a period under one second, which is not cached
/// by quotes.
pub open spec fn quote_bucket_spec(duration_ns: i64, timestamp: i64) -> Option<int> {
    if duration_ns <= 0 || duration_ns / 1_000_000_000 <= 0 {
        None
    } else {
        Some(timestamp as int / (duration_ns / 1_000_000_000))
    }
}

/// The bucket of a quote time for a cached period.
pub fn quote_bucket(duration_ns: i64, timestamp: i64) -> (b: Option<i64>)
    ensures
        b matches Some(x) ==> quote_bucket_spec(duration_ns, timestamp) == Some(x as int),
        b is None ==> quote_bucket_spec(duration_ns, timestamp) is None,
{
    if duration_ns <= 0 {
        return None;
    }
    let secs = duration_ns / 1_000_000_000;
    if secs <= 0 {
        return None;
    }
    proof {
        let x = timestamp as int;
        let dd = secs as int;
        assert(i64::MIN <= x / dd <= i64::MAX) by (nonlinear_arith)
            requires
                dd >= 1,
                i64::MIN <= x <= i64::MAX,
        {
            if x >= 0 {
                assert(x / dd <= x);
                assert(x / dd >= 0);
            } else {
                assert(x / dd >= x);
                assert(x / dd < 0);
            }
        }
    }
    timestamp.checked_div_euclid(secs)
}

/// What a quote does to the pending newest bar of one series.
#[derive(Debug, Clone, Copy, PartialEq, Eq, Structural)]
pub enum PendingStep {
    /// The quote is older than the bars held; nothing changes.
    Ignore,
    /// The quote falls in the pending bar, which it updates.
    UpdatePending,
    /// The quote opens a later bucket: the pending bar is written to disk and
    /// a new pending bar opens with the quote.
    FlushAndOpen,
    /// The quote falls in the newest stored bar: a copy of it, updated by the
    /// quote, becomes the pending bar.
    ResumeStored,
    /// A new pending bar opens with the quote.
    Open,
}

/// The step for a quote of bucket `bucket_id`, given the pending bar's id
/// (if any) and the newest stored bar's id (if any). The stored bar only
/// matters when nothing is pending.
pub open spec fn pending_step_spec(pending_id: Option<i64>, stored_id: Option<i64>, bucket_id: i64) -> PendingStep {
    match pending_id {
        Some(p) => if bucket_id < p {
            PendingStep::Ignore
        } else if bucket_id == p {
            PendingStep::UpdatePending
        } else {
            PendingStep::FlushAndOpen
        },
        None => match stored_id {
            Some(s) => if bucket_id < s {
                PendingStep::Ignore
            } else if bucket_id == s {
                PendingStep::ResumeStored
            } else {
                PendingStep::Open
            },
            None => PendingStep::Open,
        },
    }
}

/// The step a quote of bucket `bucket_id` takes.
pub fn pending_step(pending_id: Option<i64>, stored_id: Option<i64>, bucket_id: i64) -> (s: PendingStep)
    ensures
        s == pending_step_spec(pending_id, stored_id, bucket_id),
{
    match pending_id {
        Some(p) => {
            if bucket_id < p {
                PendingStep::Ignore
            } else if bucket_id == p {
                PendingStep::UpdatePending
            } else {
                PendingStep::FlushAndOpen
            }
        },
        None => match stored_id {
            Some(s) => {
                if bucket_id < s {
                    PendingStep::Ignore
                } else if bucket_id == s {
                    PendingStep::ResumeStored
                } else {
                    PendingStep::Open
                }
            },
            None => PendingStep::Open,
        },
    }
}

/// A pending bar is never dropped unwritten: while a bar `p` is pending, a
/// quote of a later bucket, however much later, writes it to disk before a
/// new bar opens; a quote of its own bucket updates it; an older quote
/// changes nothing. A pending bar is never replaced by a fresh or resumed bar.
pub proof fn lemma_pending_bar_kept(p: i64, stored_id: Option<i64>, bucket_id: i64)
    ensures
        bucket_id > p <==> pending_step_spec(Some(p), stored_id, bucket_id) == PendingStep::FlushAndOpen,
        bucket_id == p <==> pending_step_spec(Some(p), stored_id, bucket_id) == PendingStep::UpdatePending,
        bucket_id < p <==> pending_step_spec(Some(p), stored_id, bucket_id) == PendingStep::Ignore,
        pending_step_spec(Some(p), stored_id, bucket_id) != PendingStep::Open,
        pending_step_spec(Some(p), stored_id, bucket_id) != PendingStep::ResumeStored,
{
}

/// With nothing pending, a quote in the newest stored bar's bucket resumes
/// that bar, a quote of a later bucket (or any quote when nothing is stored)
/// opens a new bar, and an older quote changes nothing; nothing is flushed.
pub proof fn lemma_nothing_pending(stored_id: Option<i64>, bucket_id: i64)
    ensures
        pending_step_spec(None, stored_id, bucket_id) != PendingStep::FlushAndOpen,
        pending_step_spec(None, stored_id, bucket_id) != PendingStep::UpdatePending,
        stored_id is None ==> pending_step_spec(None, stored_id, bucket_id) == PendingStep::Open,
        stored_id matches Some(s) ==> (bucket_id == s <==> pending_step_spec(None, stored_id, bucket_id)
            == PendingStep::ResumeStored) && (bucket_id > s <==> pending_step_spec(None, stored_id, bucket_id)
            == PendingStep::Open) && (bucket_id < s <==> pending_step_spec(None, stored_id, bucket_id)
            == PendingStep::Ignore),
{
}

/// Whether a step wrote a bar to disk, so the cache may have grown.
pub fn step_grows_disk(s: PendingStep) -> (b: bool)
    ensures
        b == (s == PendingStep::FlushAndOpen),
{
    match s {
        PendingStep::FlushAndOpen => true,
        _ => false,
    }
}

/// The ids a series holds: its segments' ranges plus its pending bar.
pub fn cached_range_set(ranges: Vec<Range>, pending_id: Option<i64>) -> (r: RangeSet)
    requires
        pending_id matches Some(p) ==> p < i64::MAX,
    ensures
        r.wf(),
        pending_id is None ==> r.covered_ids() == points(ranges@),
        pending_id matches Some(p) ==> r.covered_ids() == points(ranges@).insert(p as int),
        all_proper(ranges@) ==> all_proper(r@),
{
    let mut set = RangeSet::from_ranges(ranges);
    match pending_id {
        Some(p) => {
            set.insert(p, p + 1);
            proof {
                assert(interval(p as int, p + 1) =~= Set::<int>::empty().insert(p as int));
                assert(points(ranges@).union(interval(p as int, p + 1)) =~= points(ranges@).insert(
                    p as int,
                ));
            }
        },
        None => {},
    }
    set
}

/// The ids of `[start_id, end_id)` that `have` lacks, as non-empty ranges.
pub fn missing_ranges(have: &RangeSet, start_id: i64, end_id: i64) -> (m: Vec<Range>)
    requires
        have.wf(),
    ensures
        points(m@) == interval(start_id as int, end_id as int).difference(have.covered_ids()),
        all_proper(m@),
        all_proper(have@) ==> canonical(m@),
{
    let mut v: Vec<Range> = Vec::new();
    v.push((start_id, end_id));
    let need = RangeSet::from_ranges(v);
    proof {
        assert(points(seq![(start_id, end_id)]) =~= interval(start_id as int, end_id as int)) by {
            assert forall|p: int| #[trigger] interval(start_id as int, end_id as int).contains(p)
                implies points(seq![(start_id, end_id)]).contains(p) by {
                assert(crate::storage::rangeset::covers(seq![(start_id, end_id)][0], p));
            }
        }
    }
    rangeset_difference(have, &need)
}

/// A list of non-empty ranges covers nothing only when it is empty.
pub proof fn lemma_proper_empty_points(s: Seq<Range>)
    requires
        all_proper(s),
    ensures
        points(s) == Set::<int>::empty() <==> s.len() == 0,
{
    if s.len() > 0 {
        assert(crate::storage::rangeset::covers(s[0], s[0].0 as int));
        assert(points(s).contains(s[0].0 as int));
    } else {
        assert(points(s) =~= Set::<int>::empty());
    }
}

/// Whether `have` holds every id of `[start_id, end_id)`.
pub fn is_complete(have: &RangeSet, start_id: i64, end_id: i64) -> (b: bool)
    requires
        have.wf(),
    ensures
        b == interval(start_id as int, end_id as int).subset_of(have.covered_ids()),
{
    let m = missing_ranges(have, start_id, end_id);
    proof {
        lemma_proper_empty_points(m@);
        let need = interval(start_id as int, end_id as int);
        if need.subset_of(have.covered_ids()) {
            assert(need.difference(have.covered_ids()) =~= Set::<int>::empty());
        } else {
            let p = choose|p: int| need.contains(p) && !have.covered_ids().contains(p);
            assert(need.difference(have.covered_ids()).contains(p));
        }
    }
    m.len() == 0
}

/// A range set built from `ranges`, which the listing gives sorted.
fn range_set_of(ranges: Vec<Range>) -> (r: RangeSet)
    ensures
        r.wf(),
        r.covered_ids() == points(ranges@),
{
    RangeSet::from_ranges(ranges)
}

/// Sum of the bar counts of `entries`.
pub open spec fn bar_total(entries: Seq<CacheEntryMeta>) -> int
    decreases entries.len(),
{
    if entries.len() == 0 {
        0
    } else {
        bar_total(entries.drop_last()) + entries.last().bar_count
    }
}

/// The series of the listing with a positive period, in listing order.
pub open spec fn kept_series(series: Seq<SeriesEntryMeta>) -> Seq<SeriesEntryMeta>
    decreases series.len(),
{
    if series.len() == 0 {
        Seq::empty()
    } else if series.last().duration_ns > 0 {
        kept_series(series.drop_last()).push(series.last())
    } else {
        kept_series(series.drop_last())
    }
}

/// `meta` describes `s`: same symbol, period, covered ids and counts.
pub open spec fn describes(meta: CacheEntryMeta, s: SeriesEntryMeta) -> bool {
    &&& meta.symbol@ == s.symbol@
    &&& meta.duration.ns == s.duration_ns
    &&& meta.ranges.wf()
    &&& meta.ranges.covered_ids() == points(s.ranges@)
    &&& meta.updated_at == s.updated_at
    &&& meta.bar_count == s.bar_count
}

/// The statistics of a cache listing: one entry per series with a positive
/// period, in listing order, and the totals over them.
pub fn build_stats(series: Vec<SeriesEntryMeta>) -> (st: CacheStats)
    requires
        bar_total_fits(series@),
    ensures
        st.entries@.len() == kept_series(series@).len(),
        forall|i: int| 0 <= i < st.entries@.len() ==> #[trigger] describes(st.entries@[i], kept_series(series@)[i]),
        st.total_entries == st.entries@.len(),
        st.total_bars == bar_total(st.entries@),
{
    let mut series = series;
    let ghost all = series@;
    let mut rev: Vec<CacheEntryMeta> = Vec::new();
    let mut total: usize = 0;
    let ghost mut kept_rev: Seq<SeriesEntryMeta> = Seq::empty();
    proof {
        assert(all.skip(all.len() as int) =~= Seq::<SeriesEntryMeta>::empty());
    }
    while series.len() > 0
        invariant
            bar_total_fits(all),
            series@ == all.take(series@.len() as int),
            series@.len() <= all.len(),
            kept_series(all) == kept_series(series@) + kept_rev,
            rev@.len() == kept_rev.len(),
            forall|i: int| 0 <= i < rev@.len() ==> #[trigger] describes(rev@[i], kept_rev[kept_rev.len() - 1 - i]),
            total == bar_total_rev(rev@),
            bar_total_rev(rev@) == series_total(kept_rev),
        decreases series@.len(),
    {
        let ghost r = series@.len() as int;
        let ghost before = series@;
        let popped = series.pop();
        proof {
            assert(series@ =~= all.take(r - 1));
        }
        match popped {
            Some(s) => {
                proof {
                    assert(before.drop_last() =~= series@);
                    assert(before.last() == s);
                }
                if s.duration_ns > 0 {
                    proof {
                        assert(before =~= series@.push(s));
                        lemma_series_total_le(all, series@, kept_rev, s);
                    }
                    let meta = CacheEntryMeta {
                        symbol: s.symbol,
                        duration: Duration { ns: s.duration_ns as u64 },
                        ranges: range_set_of(s.ranges),
                        updated_at: s.updated_at,
                        bar_count: s.bar_count,
                    };
                    total = total + meta.bar_count;
                    let ghost old_rev = rev@;
                    let ghost old_kept = kept_rev;
                    rev.push(meta);
                    proof {
                        kept_rev = seq![s] + old_kept;
                        assert(kept_series(before) == kept_series(series@).push(s));
                        assert(kept_series(all) =~= kept_series(series@) + kept_rev);
                        assert forall|i: int| 0 <= i < rev@.len() implies #[trigger] describes(rev@[i], kept_rev[kept_rev.len() - 1 - i]) by {
                            if i < old_rev.len() {
                                assert(kept_rev[kept_rev.len() - 1 - i] == old_kept[old_kept.len() - 1 - i]);
                            }
                        }
                        assert(rev@.drop_last() =~= old_rev);
                        lemma_series_total_prepend(s, old_kept);
                    }
                } else {
                    proof {
                        assert(kept_series(before) == kept_series(series@));
                    }
                }
            },
            None => {},
        }
    }
    let mut entries: Vec<CacheEntryMeta> = Vec::new();
    let ghost rv = rev@;
    while rev.len() > 0
        invariant
            rev@.len() + entries@.len() == rv.len(),
            forall|i: int| 0 <= i < rev@.len() ==> #[trigger] rev@[i] == rv[i],
            forall|i: int| 0 <= i < entries@.len() ==> #[trigger] entries@[i] == rv[rv.len() - 1 - i],
        decreases rev@.len(),
    {
        let ghost before = rev@;
        let popped = rev.pop();
        match popped {
            Some(m) => {
                proof {
                    assert(m == rv[before.len() - 1]);
                }
                entries.push(m);
            },
            None => {},
        }
    }
    proof {
        assert(kept_series(series@) =~= Seq::<SeriesEntryMeta>::empty()) by {
            assert(series@.len() == 0);
        }
        assert(kept_series(all) =~= kept_rev);
        lemma_rev_total(rv, entries@);
        assert forall|i: int| 0 <= i < entries@.len() implies #[trigger] describes(entries@[i], kept_series(all)[i]) by {
            let j = rv.len() - 1 - i;
            assert(entries@[i] == rv[j]);
            assert(describes(rv[j], kept_rev[kept_rev.len() - 1 - j]));
        }
    }
    let n = entries.len();
    CacheStats { total_entries: n, total_bars: total, entries }
}

/// Sum of the bar counts of `s`.
pub open spec fn series_total(s: Seq<SeriesEntryMeta>) -> int
    decreases s.len(),
{
    if s.len() == 0 {
        0
    } else {
        series_total(s.drop_last()) + s.last().bar_count
    }
}

/// The bar counts of the series with a positive period add up within `usize`.
pub open spec fn bar_total_fits(series: Seq<SeriesEntryMeta>) -> bool {
    series_total(kept_series(series)) <= usize::MAX
}

/// Sum of the bar counts of `s` taken from the back.
pub open spec fn bar_total_rev(s: Seq<CacheEntryMeta>) -> int
    decreases s.len(),
{
    bar_total(s)
}

proof fn lemma_series_total_prepend(x: SeriesEntryMeta, s: Seq<SeriesEntryMeta>)
    ensures
        series_total(seq![x] + s) == x.bar_count + series_total(s),
    decreases s.len(),
{
    if s.len() == 0 {
        let one = seq![x] + s;
        assert(one =~= seq![x]);
        assert(one.last() == x);
        assert(one.drop_last() =~= Seq::<SeriesEntryMeta>::empty());
        assert(series_total(one.drop_last()) == 0);
        assert(s =~= Seq::<SeriesEntryMeta>::empty());
    } else {
        lemma_series_total_prepend(x, s.drop_last());
        assert((seq![x] + s).drop_last() =~= seq![x] + s.drop_last());
    }
}

proof fn lemma_series_total_concat(a: Seq<SeriesEntryMeta>, b: Seq<SeriesEntryMeta>)
    ensures
        series_total(a + b) == series_total(a) + series_total(b),
    decreases b.len(),
{
    if b.len() == 0 {
        assert(a + b =~= a);
    } else {
        lemma_series_total_concat(a, b.drop_last());
        assert((a + b).drop_last() =~= a + b.drop_last());
    }
}

proof fn lemma_series_total_nonneg(s: Seq<SeriesEntryMeta>)
    ensures
        series_total(s) >= 0,
    decreases s.len(),
{
    if s.len() > 0 {
        lemma_series_total_nonneg(s.drop_last());
    }
}

proof fn lemma_series_total_le(all: Seq<SeriesEntryMeta>, rest: Seq<SeriesEntryMeta>, kept_rev: Seq<SeriesEntryMeta>, s: SeriesEntryMeta)
    requires
        bar_total_fits(all),
        kept_series(all) == kept_series(rest.push(s)) + kept_rev,
        s.duration_ns > 0,
    ensures
        series_total(kept_rev) + s.bar_count <= usize::MAX,
{
    assert(rest.push(s).drop_last() =~= rest);
    assert(kept_series(rest.push(s)) == kept_series(rest).push(s));
    lemma_series_total_concat(kept_series(rest.push(s)), kept_rev);
    lemma_series_total_nonneg(kept_series(rest));
    assert(kept_series(rest).push(s).drop_last() =~= kept_series(rest));
}

proof fn lemma_rev_total(rv: Seq<CacheEntryMeta>, fwd: Seq<CacheEntryMeta>)
    requires
        fwd.len() == rv.len(),
        forall|i: int| 0 <= i < fwd.len() ==> #[trigger] fwd[i] == rv[rv.len() - 1 - i],
    ensures
        bar_total(fwd) == bar_total(rv),
    decreases rv.len(),
{
    if rv.len() > 0 {
        let f2 = fwd.subrange(1, fwd.len() as int);
        let r2 = rv.drop_last();
        assert forall|i: int| 0 <= i < f2.len() implies #[trigger] f2[i] == r2[r2.len() - 1 - i] by {
            assert(f2[i] == fwd[i + 1]);
        }
        lemma_rev_total(r2, f2);
        lemma_bar_total_front(fwd);
        assert(fwd[0] == rv.last());
    }
}

proof fn lemma_bar_total_front(s: Seq<CacheEntryMeta>)
    requires
        s.len() > 0,
    ensures
        bar_total(s) == s[0].bar_count + bar_total(s.subrange(1, s.len() as int)),
    decreases s.len(),
{
    if s.len() == 1 {
        assert(s.drop_last() =~= Seq::<CacheEntryMeta>::empty());
        assert(s.subrange(1, 1) =~= Seq::<CacheEntryMeta>::empty());
    } else {
        let t = s.drop_last();
        let u = s.subrange(1, s.len() as int);
        lemma_bar_total_front(t);
        assert(t[0] == s[0]);
        assert(t.subrange(1, t.len() as int) =~= u.drop_last());
        assert(u.last() == s.last());
        assert(bar_total(u) == bar_total(u.drop_last()) + u.last().bar_count);
        assert(bar_total(s) == bar_total(t) + s.last().bar_count);
    }
}

} // verus!
