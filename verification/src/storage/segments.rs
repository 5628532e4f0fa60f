//! Planning rules of the segment cache: which segment files belong to a
//! series, where a new bar is written, and which records a read touches.
//!
//! The plans are computed here from the parsed file names; performing them
//! (opening, seeking, renaming files) is the caller's business.

use vstd::prelude::*;

use crate::storage::rangeset::{Range, all_proper, sort_by_start, sorted_by_start, starts_at};
use crate::text::str_eq;

verus! {

broadcast use vstd::seq_lib::group_to_multiset_ensures;

/// The ranges of the files of one series, in the order the files are listed.
pub open spec fn series_ranges_spec(files: Seq<(String, i64, Range)>, symbol: Seq<char>, duration_ns: i64) -> Seq<Range>
    decreases files.len(),
{
    if files.len() == 0 {
        Seq::empty()
    } else {
        let rest = series_ranges_spec(files.drop_last(), symbol, duration_ns);
        let f = files.last();
        if f.0@ == symbol && f.1 == duration_ns {
            rest.push(f.2)
        } else {
            rest
        }
    }
}

/// The id ranges of the segments of series (`symbol`, `duration_ns`),
/// ordered by start, from the parsed names of the files present; ranges with
/// the same start keep the order of their files.
pub fn series_ranges(files: &[(String, i64, Range)], symbol: &str, duration_ns: i64) -> (r: Vec<Range>)
    ensures
        sorted_by_start(r@),
        r@.to_multiset() == series_ranges_spec(files@, symbol@, duration_ns).to_multiset(),
        forall|st: i64| #[trigger] r@.filter(starts_at(st)) == series_ranges_spec(files@, symbol@, duration_ns).filter(starts_at(st)),
{
    let mut picked: Vec<Range> = Vec::new();
    let mut i: usize = 0;
    while i < files.len()
        invariant
            i <= files@.len(),
            picked@ == series_ranges_spec(files@.take(i as int), symbol@, duration_ns),
        decreases files@.len() - i,
    {
        let f = &files[i];
        proof {
            assert(files@.take(i + 1).drop_last() =~= files@.take(i as int));
            assert(files@.take(i + 1).last() == files@[i as int]);
        }
        if str_eq(f.0.as_str(), symbol) && f.1 == duration_ns {
            picked.push(f.2);
        }
        i = i + 1;
    }
    proof {
        assert(files@.take(files@.len() as int) =~= files@);
    }
    sort_by_start(&picked)
}

/// The periods (in ns) of which some file of `symbol` holds bars.
pub open spec fn durations_of(files: Seq<(String, i64, Range)>, symbol: Seq<char>) -> Set<i64> {
    Set::new(|d: i64| exists|i: int| 0 <= i < files.len() && #[trigger] files[i].0@ == symbol && files[i].1 == d)
}

/// Whether `s` strictly increases.
pub open spec fn strictly_increasing(s: Seq<i64>) -> bool {
    forall|i: int, j: int| 0 <= i < j < s.len() ==> #[trigger] s[i] < #[trigger] s[j]
}

/// The distinct periods stored for `symbol`, in increasing order.
pub fn symbol_durations(files: &[(String, i64, Range)], symbol: &str) -> (r: Vec<i64>)
    ensures
        strictly_increasing(r@),
        r@.to_set() == durations_of(files@, symbol@),
{
    let mut out: Vec<i64> = Vec::new();
    let mut i: usize = 0;
    while i < files.len()
        invariant
            i <= files@.len(),
            strictly_increasing(out@),
            forall|d: i64| out@.contains(d) <==> durations_of(files@.take(i as int), symbol@).contains(d),
        decreases files@.len() - i,
    {
        let f = &files[i];
        let ghost pre = files@.take(i as int);
        let ghost post = files@.take(i + 1);
        proof {
            assert forall|d: i64| durations_of(post, symbol@).contains(d) <==> durations_of(pre, symbol@).contains(d)
                || (post[i as int].0@ == symbol@ && post[i as int].1 == d) by {
                if durations_of(post, symbol@).contains(d) {
                    let k = choose|k: int| 0 <= k < post.len() && #[trigger] post[k].0@ == symbol@ && post[k].1 == d;
                    if k < i {
                        assert(pre[k] == post[k]);
                    }
                }
                if durations_of(pre, symbol@).contains(d) {
                    let k = choose|k: int| 0 <= k < pre.len() && #[trigger] pre[k].0@ == symbol@ && pre[k].1 == d;
                    assert(post[k] == pre[k]);
                }
            }
        }
        let ghost old_out = out@;
        let matches = str_eq(f.0.as_str(), symbol);
        if matches {
            let d = f.1;
            let mut pos: usize = 0;
            while pos < out.len() && out[pos] < d
                invariant
                    pos <= out@.len(),
                    forall|k: int| 0 <= k < pos ==> #[trigger] out@[k] < d,
                decreases out@.len() - pos,
            {
                pos = pos + 1;
            }
            if pos < out.len() && out[pos] == d {
            } else {
                let ghost before = out@;
                proof {
                    assert forall|k: int| pos <= k < before.len() implies #[trigger] before[k] > d by {
                        if k > pos {
                            assert(before[pos as int] < before[k]);
                        }
                    }
                }
                out.insert(pos, d);
                proof {
                    assert forall|a: int, b: int| 0 <= a < b < out@.len() implies #[trigger] out@[a] < #[trigger] out@[b] by {
                        if b < pos {
                        } else if b == pos {
                        } else if a < pos {
                            assert(out@[b] == before[b - 1]);
                        } else if a == pos {
                            assert(out@[b] == before[b - 1]);
                        } else {
                            assert(out@[b] == before[b - 1]);
                            assert(out@[a] == before[a - 1]);
                        }
                    }
                    assert forall|x: i64| out@.contains(x) <==> before.contains(x) || x == d by {
                        if out@.contains(x) {
                            let k = choose|k: int| 0 <= k < out@.len() && out@[k] == x;
                            if k < pos {
                                assert(before[k] == x);
                            } else if k > pos {
                                assert(before[k - 1] == x);
                            }
                        }
                        if before.contains(x) {
                            let k = choose|k: int| 0 <= k < before.len() && before[k] == x;
                            if k < pos {
                                assert(out@[k] == x);
                            } else {
                                assert(out@[k + 1] == x);
                            }
                        }
                        if x == d {
                            assert(out@[pos as int] == d);
                        }
                    }
                }
            }
        }
        proof {
            assert(post[i as int] == files@[i as int]);
            assert forall|x: i64| out@.contains(x) <==> durations_of(post, symbol@).contains(x) by {
                assert(old_out.contains(x) <==> durations_of(pre, symbol@).contains(x));
                if matches && x == files@[i as int].1 {
                    assert(durations_of(post, symbol@).contains(x));
                    assert(out@.contains(x)) by {
                        if !old_out.contains(x) {
                        }
                    }
                }
            }
        }
        i = i + 1;
    }
    proof {
        assert(files@.take(files@.len() as int) =~= files@);
        assert(out@.to_set() =~= durations_of(files@, symbol@));
    }
    out
}

/// Where a bar goes when it is written after the newest segment of a series.
#[derive(Debug, Clone, Copy, PartialEq, Eq)]
pub enum UpsertPlan {
    /// Write the bar as a segment of its own.
    NewSegment,
    /// The bar is older than the newest stored bar; leave the cache as it is.
    Skip,
    /// Rewrite the newest stored bar in place, at byte `offset` of segment `range`.
    Overwrite { range: Range, offset: u64 },
    /// Append the bar to segment `range`, which then covers `grown`.
    Append { range: Range, grown: Range },
    /// The byte offset of the bar does not fit in 64 bits.
    OffsetOverflow,
}

/// Where bar `row_id` goes, given the ranges of the series ordered by start:
/// a series with no segment, or a bar after a gap, gets a new segment; a bar
/// older than the newest stored bar is skipped; the newest bar is rewritten in
/// place; the bar right after it is appended.
pub open spec fn upsert_plan_spec(ranges: Seq<Range>, row_id: i64, record_size: u64) -> UpsertPlan {
    if ranges.len() == 0 {
        UpsertPlan::NewSegment
    } else {
        let (start, end) = ranges.last();
        if row_id < end - 1 {
            UpsertPlan::Skip
        } else if row_id == end - 1 {
            let offset = (row_id - start) * record_size;
            if offset > u64::MAX {
                UpsertPlan::OffsetOverflow
            } else {
                UpsertPlan::Overwrite { range: (start, end), offset: offset as u64 }
            }
        } else if row_id == end {
            UpsertPlan::Append { range: (start, end), grown: (start, (end + 1) as i64) }
        } else {
            UpsertPlan::NewSegment
        }
    }
}

/// The plan for writing bar `row_id` after the segments `ranges`.
pub fn plan_upsert(ranges: &[Range], row_id: i64, record_size: u64) -> (p: UpsertPlan)
    requires
        sorted_by_start(ranges@),
        ranges@.len() > 0 ==> ranges@.last().0 < ranges@.last().1,
        ranges@.len() > 0 ==> ranges@.last().1 - ranges@.last().0 <= i64::MAX,
        ranges@.len() > 0 ==> !(row_id == ranges@.last().1 && row_id == i64::MAX),
    ensures
        p == upsert_plan_spec(ranges@, row_id, record_size),
{
    if ranges.len() == 0 {
        return UpsertPlan::NewSegment;
    }
    let (start, end) = ranges[ranges.len() - 1];
    if row_id < end - 1 {
        return UpsertPlan::Skip;
    }
    if row_id == end - 1 {
        let index = (row_id - start) as u64;
        return match index.checked_mul(record_size) {
            Some(offset) => UpsertPlan::Overwrite { range: (start, end), offset },
            None => UpsertPlan::OffsetOverflow,
        };
    }
    if row_id == end {
        return UpsertPlan::Append { range: (start, end), grown: (start, end + 1) };
    }
    UpsertPlan::NewSegment
}

/// The records `[start_index, end_index)` of segment `range` that a read takes.
#[derive(Debug, Clone, Copy, PartialEq, Eq)]
pub struct SegmentRead {
    pub range: Range,
    pub start_index: usize,
    pub end_index: usize,
}

/// Each segment is non-empty and small enough that its record indices fit
/// in a `usize` and its id span in an `i64`.
pub open spec fn segments_fit(ranges: Seq<Range>) -> bool {
    &&& all_proper(ranges)
    &&& forall|i: int| 0 <= i < ranges.len() ==> #[trigger] ranges[i].1 - ranges[i].0 <= usize::MAX
        && ranges[i].1 - ranges[i].0 <= i64::MAX
}

/// The reads that gather ids `[start_id, end_id)`: for each segment that
/// overlaps the window, in the given order, the records of the overlap.
pub open spec fn window_reads_spec(ranges: Seq<Range>, start_id: int, end_id: int) -> Seq<SegmentRead>
    decreases ranges.len(),
{
    if ranges.len() == 0 {
        Seq::empty()
    } else {
        let rest = window_reads_spec(ranges.drop_last(), start_id, end_id);
        let r = ranges.last();
        if r.1 <= start_id || r.0 >= end_id {
            rest
        } else {
            let a = if start_id > r.0 { start_id } else { r.0 as int };
            let b = if end_id < r.1 { end_id } else { r.1 as int };
            rest.push(SegmentRead { range: r, start_index: (a - r.0) as usize, end_index: (b - r.0) as usize })
        }
    }
}

/// The ids a read takes: `range.0 + start_index .. range.0 + end_index`.
pub open spec fn read_covers(r: SegmentRead, p: int) -> bool {
    r.range.0 + r.start_index <= p < r.range.0 + r.end_index
}

/// The ids gathered by a list of reads.
pub open spec fn read_ids(reads: Seq<SegmentRead>) -> Set<int> {
    Set::new(|p: int| exists|k: int| 0 <= k < reads.len() && #[trigger] read_covers(reads[k], p))
}

/// Whether some segment of `ranges` holds the id `p`.
pub open spec fn segment_holds(ranges: Seq<Range>, p: int) -> bool {
    exists|i: int| 0 <= i < ranges.len() && ranges[i].0 <= p < #[trigger] ranges[i].1
}

/// A window read misses nothing and takes nothing extra: the ids gathered
/// by the reads are exactly the ids of `[start_id, end_id)` that some
/// segment holds, and each read stays inside its own segment.
pub proof fn lemma_window_reads_gather_window(ranges: Seq<Range>, start_id: int, end_id: int)
    requires
        segments_fit(ranges),
        start_id < end_id,
    ensures
        forall|p: int| #[trigger] read_ids(window_reads_spec(ranges, start_id, end_id)).contains(p) <==> start_id
            <= p < end_id && segment_holds(ranges, p),
        forall|k: int| 0 <= k < window_reads_spec(ranges, start_id, end_id).len() ==> {
            let r = #[trigger] window_reads_spec(ranges, start_id, end_id)[k];
            r.start_index < r.end_index && r.range.0 + r.end_index <= r.range.1
        },
    decreases ranges.len(),
{
    let reads = window_reads_spec(ranges, start_id, end_id);
    if ranges.len() > 0 {
        let t = ranges.drop_last();
        assert(segments_fit(t)) by {
            assert forall|i: int| 0 <= i < t.len() implies #[trigger] t[i].0 < t[i].1 by {
                assert(t[i] == ranges[i]);
            }
            assert forall|i: int| 0 <= i < t.len() implies #[trigger] t[i].1 - t[i].0 <= usize::MAX
                && t[i].1 - t[i].0 <= i64::MAX by {
                assert(t[i] == ranges[i]);
            }
        }
        lemma_window_reads_gather_window(t, start_id, end_id);
        let rest = window_reads_spec(t, start_id, end_id);
        let r = ranges.last();
        assert(r == ranges[ranges.len() - 1]);
        assert(r.0 < r.1 && r.1 - r.0 <= usize::MAX);
        assert forall|p: int| segment_holds(ranges, p) <==> segment_holds(t, p) || (r.0 <= p < r.1) by {
            if segment_holds(ranges, p) {
                let i = choose|i: int| 0 <= i < ranges.len() && ranges[i].0 <= p < #[trigger] ranges[i].1;
                if i < t.len() {
                    assert(t[i] == ranges[i]);
                }
            }
            if segment_holds(t, p) {
                let i = choose|i: int| 0 <= i < t.len() && t[i].0 <= p < #[trigger] t[i].1;
                assert(t[i] == ranges[i]);
            }
            if r.0 <= p < r.1 {
                assert(ranges[ranges.len() - 1].0 <= p < ranges[ranges.len() - 1].1);
            }
        }
        if r.1 <= start_id || r.0 >= end_id {
            assert(reads == rest);
            assert forall|p: int| read_ids(reads).contains(p) <==> start_id <= p < end_id && segment_holds(ranges, p) by {
                assert(read_ids(rest).contains(p) <==> start_id <= p < end_id && segment_holds(t, p));
            }
        } else {
            let a = if start_id > r.0 { start_id } else { r.0 as int };
            let b = if end_id < r.1 { end_id } else { r.1 as int };
            let x = SegmentRead { range: r, start_index: (a - r.0) as usize, end_index: (b - r.0) as usize };
            assert(reads == rest.push(x));
            assert(0 <= a - r.0 <= r.1 - r.0);
            assert(0 <= b - r.0 <= r.1 - r.0);
            assert(x.start_index == a - r.0 && x.end_index == b - r.0);
            assert(a < b);
            assert forall|p: int| read_covers(x, p) <==> start_id <= p < end_id && r.0 <= p < r.1 by {}
            assert forall|p: int| #[trigger] read_ids(reads).contains(p) <==> read_ids(rest).contains(p) || read_covers(x, p) by {
                if read_ids(reads).contains(p) {
                    let k = choose|k: int| 0 <= k < reads.len() && #[trigger] read_covers(reads[k], p);
                    if k < rest.len() {
                        assert(reads[k] == rest[k]);
                    }
                }
                if read_ids(rest).contains(p) {
                    let k = choose|k: int| 0 <= k < rest.len() && #[trigger] read_covers(rest[k], p);
                    assert(reads[k] == rest[k]);
                }
                if read_covers(x, p) {
                    assert(reads[reads.len() - 1] == x);
                }
                assert(read_ids(rest).contains(p) <==> start_id <= p < end_id && segment_holds(t, p));
            }
            assert forall|p: int| #[trigger] read_ids(reads).contains(p) <==> start_id <= p < end_id && segment_holds(ranges, p) by {
                assert(read_ids(reads).contains(p) <==> read_ids(rest).contains(p) || read_covers(x, p));
                assert(read_ids(rest).contains(p) <==> start_id <= p < end_id && segment_holds(t, p));
                assert(read_covers(x, p) <==> start_id <= p < end_id && r.0 <= p < r.1);
                assert(segment_holds(ranges, p) <==> segment_holds(t, p) || (r.0 <= p < r.1));
            }
            assert forall|k: int| 0 <= k < reads.len() implies {
                let y = #[trigger] reads[k];
                y.start_index < y.end_index && y.range.0 + y.end_index <= y.range.1
            } by {
                if k < rest.len() {
                    assert(reads[k] == rest[k]);
                } else {
                    assert(reads[k] == x);
                }
            }
        }
    } else {
        assert(reads.len() == 0);
        assert forall|p: int| #[trigger] read_ids(reads).contains(p) <==> start_id <= p < end_id && segment_holds(ranges, p) by {
            if read_ids(reads).contains(p) {
                let k = choose|k: int| 0 <= k < reads.len() && #[trigger] read_covers(reads[k], p);
            }
        }
    }
}

/// The reads gathering ids `[start_id, end_id)`; none for an empty window.
pub fn plan_window_reads(ranges: &[Range], start_id: i64, end_id: i64) -> (reads: Vec<SegmentRead>)
    requires
        segments_fit(ranges@),
    ensures
        end_id <= start_id ==> reads@.len() == 0,
        start_id < end_id ==> reads@ == window_reads_spec(ranges@, start_id as int, end_id as int),
        forall|p: int| #[trigger] read_ids(reads@).contains(p) <==> start_id <= p < end_id && segment_holds(ranges@, p),
{
    let mut reads: Vec<SegmentRead> = Vec::new();
    if end_id <= start_id {
        proof {
            assert forall|p: int| #[trigger] read_ids(reads@).contains(p) <==> start_id <= p < end_id && segment_holds(ranges@, p) by {
                if read_ids(reads@).contains(p) {
                    let k = choose|k: int| 0 <= k < reads@.len() && #[trigger] read_covers(reads@[k], p);
                }
            }
        }
        return reads;
    }
    let mut i: usize = 0;
    while i < ranges.len()
        invariant
            segments_fit(ranges@),
            i <= ranges@.len(),
            reads@ == window_reads_spec(ranges@.take(i as int), start_id as int, end_id as int),
        decreases ranges@.len() - i,
    {
        let r = ranges[i];
        proof {
            assert(ranges@.take(i + 1).drop_last() =~= ranges@.take(i as int));
            assert(ranges@.take(i + 1).last() == r);
            assert(r.0 < r.1 && r.1 - r.0 <= usize::MAX && r.1 - r.0 <= i64::MAX);
        }
        if !(r.1 <= start_id || r.0 >= end_id) {
            let a = if start_id > r.0 { start_id } else { r.0 };
            let b = if end_id < r.1 { end_id } else { r.1 };
            reads.push(SegmentRead { range: r, start_index: (a - r.0) as usize, end_index: (b - r.0) as usize });
        }
        i = i + 1;
    }
    proof {
        assert(ranges@.take(ranges@.len() as int) =~= ranges@);
        lemma_window_reads_gather_window(ranges@, start_id as int, end_id as int);
    }
    reads
}

/// The reads that gather the newest `remaining` bars: segments are visited
/// from the last one back, each giving its newest records until enough are
/// taken.
pub open spec fn latest_reads_spec(ranges: Seq<Range>, remaining: int) -> Seq<SegmentRead>
    decreases ranges.len(),
{
    if ranges.len() == 0 || remaining <= 0 {
        Seq::empty()
    } else {
        let r = ranges.last();
        let available = if r.1 - r.0 > 0 { r.1 - r.0 } else { 0 };
        if available == 0 {
            latest_reads_spec(ranges.drop_last(), remaining)
        } else {
            let take = if remaining < available { remaining } else { available };
            seq![SegmentRead { range: r, start_index: (available - take) as usize, end_index: available as usize }]
                + latest_reads_spec(ranges.drop_last(), remaining - take)
        }
    }
}

/// The reads gathering the newest `count` bars of segments `ranges`.
pub fn plan_latest_reads(ranges: &[Range], count: usize) -> (reads: Vec<SegmentRead>)
    requires
        segments_fit(ranges@),
    ensures
        reads@ == latest_reads_spec(ranges@, count as int),
{
    let mut reads: Vec<SegmentRead> = Vec::new();
    let mut remaining = count;
    let mut i = ranges.len();
    proof {
        assert(ranges@.take(i as int) =~= ranges@);
        assert(reads@ + latest_reads_spec(ranges@.take(i as int), remaining as int) =~= latest_reads_spec(ranges@, count as int));
    }
    while i > 0 && remaining > 0
        invariant
            segments_fit(ranges@),
            i <= ranges@.len(),
            remaining <= count,
            reads@ + latest_reads_spec(ranges@.take(i as int), remaining as int) == latest_reads_spec(ranges@, count as int),
        decreases i,
    {
        let r = ranges[i - 1];
        let ghost pre = ranges@.take(i as int);
        proof {
            assert(pre.drop_last() =~= ranges@.take(i - 1));
            assert(pre.last() == r);
            assert(r.0 < r.1 && r.1 - r.0 <= usize::MAX && r.1 - r.0 <= i64::MAX);
        }
        let available = (r.1 - r.0) as usize;
        let take = if remaining < available { remaining } else { available };
        let read = SegmentRead { range: r, start_index: available - take, end_index: available };
        proof {
            assert(latest_reads_spec(pre, remaining as int) == seq![read] + latest_reads_spec(ranges@.take(i - 1), remaining - take));
            assert(reads@.push(read) + latest_reads_spec(ranges@.take(i - 1), remaining - take) =~= reads@ + (seq![read] + latest_reads_spec(ranges@.take(i - 1), remaining - take)));
        }
        reads.push(read);
        remaining = remaining - take;
        i = i - 1;
    }
    proof {
        assert(latest_reads_spec(ranges@.take(i as int), remaining as int) =~= Seq::<SegmentRead>::empty());
        assert(reads@ + Seq::<SegmentRead>::empty() =~= reads@);
    }
    reads
}

/// `order` lists each position of `times` once, oldest time first; of equal
/// times the earlier position comes first.
pub open spec fn oldest_first(times: Seq<i128>, order: Seq<usize>) -> bool {
    &&& order.len() == times.len()
    &&& forall|a: int| 0 <= a < order.len() ==> #[trigger] order[a] < times.len()
    &&& forall|a: int, b: int| 0 <= a < b < order.len() ==> {
        let (x, y) = (#[trigger] order[a], #[trigger] order[b]);
        times[x as int] < times[y as int] || (times[x as int] == times[y as int] && x < y)
    }
}

/// The order in which cache files are evicted: by modification time, oldest
/// first, ties in listing order (a stable sort).
pub fn eviction_order(times: &[i128]) -> (order: Vec<usize>)
    ensures
        oldest_first(times@, order@),
{
    let mut order: Vec<usize> = Vec::new();
    let n = times.len();
    let mut i: usize = 0;
    while i < n
        invariant
            n == times@.len(),
            i <= n,
            order@.len() == i,
            forall|a: int| 0 <= a < order@.len() ==> #[trigger] order@[a] < i,
            forall|a: int, b: int| 0 <= a < b < order@.len() ==> {
                let (x, y) = (#[trigger] order@[a], #[trigger] order@[b]);
                times@[x as int] < times@[y as int] || (times@[x as int] == times@[y as int] && x < y)
            },
        decreases n - i,
    {
        let t = times[i];
        let mut pos: usize = 0;
        while pos < order.len() && times[order[pos]] <= t
            invariant
                n == times@.len(),
                pos <= order@.len(),
                forall|a: int| 0 <= a < order@.len() ==> #[trigger] order@[a] < i,
                i < n,
                t == times@[i as int],
                forall|a: int| 0 <= a < pos ==> times@[#[trigger] order@[a] as int] <= t,
            decreases order@.len() - pos,
        {
            pos = pos + 1;
        }
        let ghost before = order@;
        proof {
            assert forall|a: int| pos <= a < before.len() implies times@[#[trigger] before[a] as int] > t by {
                if a > pos {
                    let (x, y) = (before[pos as int], before[a]);
                    assert(times@[x as int] < times@[y as int] || (times@[x as int] == times@[y as int] && x < y));
                }
            }
        }
        order.insert(pos, i);
        proof {
            assert forall|a: int, b: int| 0 <= a < b < order@.len() implies {
                let (x, y) = (#[trigger] order@[a], #[trigger] order@[b]);
                times@[x as int] < times@[y as int] || (times@[x as int] == times@[y as int] && x < y)
            } by {
                if b < pos {
                    assert(order@[a] == before[a] && order@[b] == before[b]);
                } else if b == pos {
                    assert(order@[a] == before[a]);
                    assert(times@[before[a] as int] <= t);
                } else if a < pos {
                    assert(order@[a] == before[a] && order@[b] == before[b - 1]);
                } else if a == pos {
                    assert(order@[b] == before[b - 1]);
                } else {
                    assert(order@[a] == before[a - 1] && order@[b] == before[b - 1]);
                }
            }
            assert forall|a: int| 0 <= a < order@.len() implies #[trigger] order@[a] < i + 1 by {
                if a < pos {
                    assert(order@[a] == before[a]);
                } else if a > pos {
                    assert(order@[a] == before[a - 1]);
                }
            }
        }
        i = i + 1;
    }
    order
}

/// A rewrite of the newest stored bar and a read of that bar meet at the
/// same record: the plan that rewrites bar `row_id` (the last id of the
/// newest segment) writes at the byte offset of the record that a read of
/// `[row_id, row_id + 1)` takes from that segment.
pub proof fn lemma_rewrite_read_agree(ranges: Seq<Range>, row_id: i64, record_size: u64)
    requires
        ranges.len() > 0,
        ranges.last().0 < ranges.last().1,
        row_id == ranges.last().1 - 1,
        (row_id - ranges.last().0) * record_size <= u64::MAX,
        row_id - ranges.last().0 < usize::MAX,
    ensures
        upsert_plan_spec(ranges, row_id, record_size) == (UpsertPlan::Overwrite {
            range: ranges.last(),
            offset: ((row_id - ranges.last().0) * record_size) as u64,
        }),
        window_reads_spec(ranges, row_id as int, row_id + 1).last() == (SegmentRead {
            range: ranges.last(),
            start_index: (row_id - ranges.last().0) as usize,
            end_index: (row_id - ranges.last().0 + 1) as usize,
        }),
{
}

/// Ids never decrease along `s`.
pub open spec fn ids_nondecreasing<T>(s: Seq<(i64, T)>) -> bool {
    forall|i: int, j: int| 0 <= i < j < s.len() ==> #[trigger] s[i].0 <= #[trigger] s[j].0
}

/// Whether a row carries the id `k`.
pub open spec fn has_id<T>(k: i64) -> spec_fn((i64, T)) -> bool {
    |r: (i64, T)| r.0 == k
}

proof fn lemma_no_row_with_id<T>(s: Seq<(i64, T)>, k: i64)
    requires
        forall|i: int| 0 <= i < s.len() ==> #[trigger] s[i].0 != k,
    ensures
        s.filter(has_id::<T>(k)) == Seq::<(i64, T)>::empty(),
{
    let p = has_id::<T>(k);
    assert forall|i: int| 0 <= i < s.len() implies !p(#[trigger] s[i]) by {}
    s.lemma_all_neg_filter_empty(p);
    assert(s.filter(p) =~= Seq::<(i64, T)>::empty());
}

/// The rows ordered by id; rows with the same id keep their order.
#[verifier::spinoff_prover]
#[verifier::rlimit(40)]
pub fn sort_rows_by_id<T>(rows: Vec<(i64, T)>) -> (out: Vec<(i64, T)>)
    ensures
        ids_nondecreasing(out@),
        out@.to_multiset() == rows@.to_multiset(),
        forall|k: i64| #[trigger] out@.filter(has_id::<T>(k)) == rows@.filter(has_id::<T>(k)),
{
    let ghost s = rows@;
    let mut rows = rows;
    let mut out: Vec<(i64, T)> = Vec::new();
    proof {
        assert(s.skip(s.len() as int) =~= Seq::<(i64, T)>::empty());
        assert forall|k: i64| #[trigger] out@.filter(has_id::<T>(k)) == s.skip(s.len() as int).filter(has_id::<T>(k)) by {
            reveal(Seq::filter);
        }
    }
    while rows.len() > 0
        invariant
            rows@ == s.take(rows@.len() as int),
            rows@.len() <= s.len(),
            ids_nondecreasing(out@),
            out@.to_multiset() == s.skip(rows@.len() as int).to_multiset(),
            forall|k: i64| #[trigger] out@.filter(has_id::<T>(k)) == s.skip(rows@.len() as int).filter(has_id::<T>(k)),
        decreases rows@.len(),
    {
        let ghost r = rows@.len() as int;
        let ghost before_rows = rows@;
        let popped = rows.pop();
        proof {
            assert(rows@ =~= s.take(r - 1));
        }
        match popped {
            Some(x) => {
                let mut pos: usize = 0;
                while pos < out.len() && out[pos].0 < x.0
                    invariant
                        pos <= out@.len(),
                        forall|k: int| 0 <= k < pos ==> #[trigger] out@[k].0 < x.0,
                    decreases out@.len() - pos,
                {
                    pos = pos + 1;
                }
                let ghost before = out@;
                proof {
                    assert(x == s[r - 1]);
                    assert(s.skip(r - 1) =~= seq![x] + s.skip(r));
                    assert(forall|k: int| pos <= k < before.len() ==> #[trigger] before[k].0 >= x.0) by {
                        assert forall|k: int| pos <= k < before.len() implies #[trigger] before[k].0 >= x.0 by {
                            if k > pos {
                                assert(before[pos as int].0 <= before[k].0);
                            }
                        }
                    }
                }
                out.insert(pos, x);
                proof {
                    before.insert_ensures(pos as int, x);
                    assert forall|a: int, b: int| 0 <= a < b < out@.len() implies #[trigger] out@[a].0 <= #[trigger] out@[b].0 by {
                        if b < pos {
                        } else if b == pos {
                        } else if a < pos {
                            assert(out@[b] == before[b - 1]);
                        } else if a == pos {
                            assert(out@[b] == before[b - 1]);
                        } else {
                            assert(out@[b] == before[b - 1]);
                            assert(out@[a] == before[a - 1]);
                        }
                    }
                    assert((seq![x] + s.skip(r)).to_multiset() =~= s.skip(r).to_multiset().insert(x)) by {
                        vstd::seq_lib::lemma_multiset_commutative(seq![x], s.skip(r));
                        assert(s.skip(r) + seq![x] =~= s.skip(r).push(x));
                    }
                    let lo = before.take(pos as int);
                    let hi = before.skip(pos as int);
                    assert(out@ =~= lo + seq![x] + hi);
                    assert(before =~= lo + hi);
                    assert forall|k: i64| #[trigger] out@.filter(has_id::<T>(k)) == s.skip(r - 1).filter(has_id::<T>(k)) by {
                        let p = has_id::<T>(k);
                        Seq::filter_distributes_over_add(lo + seq![x], hi, p);
                        Seq::filter_distributes_over_add(lo, seq![x], p);
                        Seq::filter_distributes_over_add(lo, hi, p);
                        Seq::filter_distributes_over_add(seq![x], s.skip(r), p);
                        assert(seq![x].filter(p) == (if x.0 == k { seq![x] } else { Seq::<(i64, T)>::empty() })) by {
                            reveal_with_fuel(Seq::filter, 2);
                            assert(seq![x].drop_last() =~= Seq::<(i64, T)>::empty());
                        }
                        if k == x.0 {
                            lemma_no_row_with_id(lo, k);
                            assert(lo.filter(p) + seq![x] =~= seq![x]);
                        } else {
                            assert(lo.filter(p) + Seq::<(i64, T)>::empty() =~= lo.filter(p));
                            assert(Seq::<(i64, T)>::empty() + s.skip(r).filter(p) =~= s.skip(r).filter(p));
                        }
                    }
                }
            },
            None => {},
        }
    }
    proof {
        assert(s.skip(0) =~= s);
    }
    out
}

} // verus!
