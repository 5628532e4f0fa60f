//! Sets of integer ids kept as sorted, non-overlapping half-open ranges.
//!
//! `[(0, 100), (200, 300)]` covers ids 0..=99 and 200..=299. The history
//! cache uses these sets to decide which ids it still has to download.

use vstd::prelude::*;

verus! {

broadcast use vstd::seq_lib::group_to_multiset_ensures;

/// A half-open range `[start, end)` of ids.
pub type Range = (i64, i64);

/// Whether `r` covers the id `p`.
pub open spec fn covers(r: Range, p: int) -> bool {
    r.0 <= p && p < r.1
}

/// Whether some range of `s` covers the id `p`.
pub open spec fn covered(s: Seq<Range>, p: int) -> bool {
    exists|i: int| 0 <= i < s.len() && #[trigger] covers(s[i], p)
}

/// The ids covered by the ranges of `s`.
pub open spec fn points(s: Seq<Range>) -> Set<int> {
    Set::new(|p: int| covered(s, p))
}

/// Every range of `s` is non-empty (`start < end`).
pub open spec fn all_proper(s: Seq<Range>) -> bool {
    forall|i: int| 0 <= i < s.len() ==> #[trigger] s[i].0 < s[i].1
}

/// Starts never decrease along `s`.
pub open spec fn sorted_by_start(s: Seq<Range>) -> bool {
    forall|i: int, j: int| 0 <= i < j < s.len() ==> #[trigger] s[i].0 <= #[trigger] s[j].0
}

/// The normal form of a range set: starts never decrease, and every range
/// ends strictly before any later range starts (so no two ranges overlap or
/// touch).
pub open spec fn canonical(s: Seq<Range>) -> bool {
    forall|i: int, j: int|
        0 <= i < j < s.len() ==> #[trigger] s[i].0 <= #[trigger] s[j].0 && s[i].1 < s[j].0
}

/// The ids of the half-open interval `[a, b)`.
pub open spec fn interval(a: int, b: int) -> Set<int> {
    Set::new(|p: int| a <= p && p < b)
}

/// Sum of `end - start` over the ranges of `s`.
pub open spec fn span_sum(s: Seq<Range>) -> int
    decreases s.len(),
{
    if s.len() == 0 {
        0
    } else {
        span_sum(s.drop_last()) + (s.last().1 - s.last().0)
    }
}

/// Every span `end - start` and every running total of spans fits in an `i64`.
pub open spec fn spans_fit(s: Seq<Range>) -> bool {
    &&& forall|i: int| 0 <= i < s.len() ==> i64::MIN <= #[trigger] s[i].1 - s[i].0 <= i64::MAX
    &&& forall|k: int| 0 <= k <= s.len() ==> i64::MIN <= #[trigger] span_sum(s.take(k)) <= i64::MAX
}

/// For ranges in normal form with no empty range, the total span is the
/// number of ids covered.
pub proof fn lemma_span_sum_counts_points(s: Seq<Range>)
    requires
        canonical(s),
        all_proper(s),
    ensures
        points(s).finite(),
        points(s).len() == span_sum(s),
    decreases s.len(),
{
    if s.len() == 0 {
        assert(points(s) =~= Set::<int>::empty());
    } else {
        let t = s.drop_last();
        let r = s.last();
        assert(s =~= t.push(r));
        assert(canonical(t));
        assert(all_proper(t));
        lemma_span_sum_counts_points(t);
        lemma_points_push(t, r);
        let iv = Set::new(|p: int| covers(r, p));
        assert(iv =~= vstd::set_lib::set_int_range(r.0 as int, r.1 as int));
        vstd::set_lib::lemma_int_range(r.0 as int, r.1 as int);
        assert(points(t).disjoint(iv)) by {
            assert forall|p: int| points(t).contains(p) implies !iv.contains(p) by {
                let i = choose|i: int| 0 <= i < t.len() && #[trigger] covers(t[i], p);
                assert(t[i] == s[i]);
                assert(s[i].1 < s[s.len() - 1].0);
            }
        }
        vstd::set_lib::lemma_set_disjoint_lens(points(t), iv);
        assert(points(t).union(iv) == points(t) + iv);
    }
}

proof fn lemma_covered_drop_first(s: Seq<Range>, p: int)
    requires
        canonical(s),
        s.len() > 0,
    ensures
        covered(s.drop_first(), p) <==> covered(s, p) && !covers(s[0], p),
{
    let t = s.drop_first();
    if covered(t, p) {
        let i = choose|i: int| 0 <= i < t.len() && #[trigger] covers(t[i], p);
        assert(t[i] == s[i + 1]);
        assert(covers(s[i + 1], p));
        assert(s[0].0 <= s[i + 1].0);
        assert(s[0].1 < s[i + 1].0);
    }
    if covered(s, p) && !covers(s[0], p) {
        let i = choose|i: int| 0 <= i < s.len() && #[trigger] covers(s[i], p);
        assert(i != 0);
        assert(t[i - 1] == s[i]);
        assert(covers(t[i - 1], p));
    }
}

/// The normal form is unique: two lists of non-empty ranges in normal form
/// that cover the same ids are the same list.
pub proof fn lemma_normal_form_unique(s: Seq<Range>, t: Seq<Range>)
    requires
        canonical(s),
        all_proper(s),
        canonical(t),
        all_proper(t),
        points(s) == points(t),
    ensures
        s == t,
    decreases s.len(),
{
    if s.len() == 0 || t.len() == 0 {
        if s.len() > 0 {
            assert(covers(s[0], s[0].0 as int));
            assert(points(s).contains(s[0].0 as int));
        }
        if t.len() > 0 {
            assert(covers(t[0], t[0].0 as int));
            assert(points(t).contains(t[0].0 as int));
        }
        assert(s =~= t);
    } else {
        let a = s[0].0;
        let b = s[0].1;
        let c = t[0].0;
        let d = t[0].1;
        assert(covers(s[0], a as int));
        assert(points(s).contains(a as int));
        let j = choose|j: int| 0 <= j < t.len() && #[trigger] covers(t[j], a as int);
        if j > 0 {
            assert(t[0].0 <= t[j].0);
        }
        assert(covers(t[0], c as int));
        assert(points(t).contains(c as int));
        let i = choose|i: int| 0 <= i < s.len() && #[trigger] covers(s[i], c as int);
        if i > 0 {
            assert(s[0].0 <= s[i].0);
        }
        assert(a == c);
        if d < b {
            assert(covers(s[0], d as int));
            assert(points(s).contains(d as int));
            let k = choose|k: int| 0 <= k < t.len() && #[trigger] covers(t[k], d as int);
            if k > 0 {
                assert(t[0].1 < t[k].0);
            }
        }
        if b < d {
            assert(covers(t[0], b as int));
            assert(points(t).contains(b as int));
            let k = choose|k: int| 0 <= k < s.len() && #[trigger] covers(s[k], b as int);
            if k > 0 {
                assert(s[0].1 < s[k].0);
            }
        }
        assert(s[0] == t[0]);
        let s1 = s.drop_first();
        let t1 = t.drop_first();
        assert(canonical(s1)) by {
            assert forall|x: int, y: int| 0 <= x < y < s1.len() implies #[trigger] s1[x].0 <= #[trigger] s1[y].0
                && s1[x].1 < s1[y].0 by {
                assert(s1[x] == s[x + 1] && s1[y] == s[y + 1]);
            }
        }
        assert(canonical(t1)) by {
            assert forall|x: int, y: int| 0 <= x < y < t1.len() implies #[trigger] t1[x].0 <= #[trigger] t1[y].0
                && t1[x].1 < t1[y].0 by {
                assert(t1[x] == t[x + 1] && t1[y] == t[y + 1]);
            }
        }
        assert(all_proper(s1)) by {
            assert forall|x: int| 0 <= x < s1.len() implies #[trigger] s1[x].0 < s1[x].1 by {
                assert(s1[x] == s[x + 1]);
            }
        }
        assert(all_proper(t1)) by {
            assert forall|x: int| 0 <= x < t1.len() implies #[trigger] t1[x].0 < t1[x].1 by {
                assert(t1[x] == t[x + 1]);
            }
        }
        assert forall|p: int| points(s1).contains(p) <==> points(t1).contains(p) by {
            lemma_covered_drop_first(s, p);
            lemma_covered_drop_first(t, p);
            assert(points(s).contains(p) <==> points(t).contains(p));
            assert(points(s).contains(p) == covered(s, p));
            assert(points(t).contains(p) == covered(t, p));
            assert(points(s1).contains(p) == covered(s1, p));
            assert(points(t1).contains(p) == covered(t1, p));
        }
        assert(points(s1) =~= points(t1));
        lemma_normal_form_unique(s1, t1);
        assert(s =~= seq![s[0]] + s1);
        assert(t =~= seq![t[0]] + t1);
    }
}

proof fn lemma_covered_push(s: Seq<Range>, r: Range, p: int)
    ensures
        covered(s.push(r), p) <==> covered(s, p) || covers(r, p),
{
    let t = s.push(r);
    if covered(t, p) {
        let i = choose|i: int| 0 <= i < t.len() && #[trigger] covers(t[i], p);
        if i < s.len() {
            assert(covers(s[i], p));
        }
    }
    if covered(s, p) {
        let i = choose|i: int| 0 <= i < s.len() && #[trigger] covers(s[i], p);
        assert(covers(t[i], p));
    }
    if covers(r, p) {
        assert(covers(t[s.len() as int], p));
    }
}

proof fn lemma_points_push(s: Seq<Range>, r: Range)
    ensures
        points(s.push(r)) == points(s).union(Set::new(|p: int| covers(r, p))),
{
    assert forall|p: int| points(s.push(r)).contains(p) <==> points(s).union(
        Set::new(|p: int| covers(r, p)),
    ).contains(p) by {
        lemma_covered_push(s, r, p);
    }
    assert(points(s.push(r)) =~= points(s).union(Set::new(|p: int| covers(r, p))));
}

proof fn lemma_covered_same_elements(a: Seq<Range>, b: Seq<Range>, p: int)
    requires
        forall|x: Range| a.contains(x) ==> b.contains(x),
        covered(a, p),
    ensures
        covered(b, p),
{
    let i = choose|i: int| 0 <= i < a.len() && #[trigger] covers(a[i], p);
    assert(a.contains(a[i]));
    let j = choose|j: int| 0 <= j < b.len() && b[j] == a[i];
    assert(covers(b[j], p));
}

proof fn lemma_points_same_multiset(a: Seq<Range>, b: Seq<Range>)
    requires
        a.to_multiset() == b.to_multiset(),
    ensures
        points(a) == points(b),
        all_proper(a) ==> all_proper(b),
{
    assert forall|x: Range| a.contains(x) <==> b.contains(x) by {
        assert(a.contains(x) <==> a.to_multiset().count(x) > 0);
        assert(b.contains(x) <==> b.to_multiset().count(x) > 0);
    }
    assert forall|p: int| points(a).contains(p) <==> points(b).contains(p) by {
        if covered(a, p) {
            lemma_covered_same_elements(a, b, p);
        }
        if covered(b, p) {
            lemma_covered_same_elements(b, a, p);
        }
    }
    assert(points(a) =~= points(b));
    if all_proper(a) {
        assert forall|i: int| 0 <= i < b.len() implies #[trigger] b[i].0 < b[i].1 by {
            assert(b.contains(b[i]));
            let j = choose|j: int| 0 <= j < a.len() && a[j] == b[i];
        }
    }
}

/// `t` with `x` inserted after the last range whose start is at most
/// `x`'s (the place a stable insertion into a start-sorted list takes).
pub open spec fn insert_by_start(t: Seq<Range>, x: Range) -> Seq<Range>
    decreases t.len(),
{
    if t.len() == 0 {
        seq![x]
    } else if t.last().0 <= x.0 {
        t.push(x)
    } else {
        insert_by_start(t.drop_last(), x).push(t.last())
    }
}

/// `s` sorted by start, ranges with equal starts kept in order.
pub open spec fn sort_spec(s: Seq<Range>) -> Seq<Range>
    decreases s.len(),
{
    if s.len() == 0 {
        s
    } else {
        insert_by_start(sort_spec(s.drop_last()), s.last())
    }
}

/// The merge of the start-sorted list `cur, rest...`: each range that starts
/// no later than the running range's end extends it; any other starts a new
/// running range.
pub open spec fn merge_from(cur: Range, rest: Seq<Range>) -> Seq<Range>
    decreases rest.len(),
{
    if rest.len() == 0 {
        seq![cur]
    } else if rest[0].0 <= cur.1 {
        merge_from((cur.0, if cur.1 >= rest[0].1 { cur.1 } else { rest[0].1 }), rest.drop_first())
    } else {
        seq![cur] + merge_from(rest[0], rest.drop_first())
    }
}

/// The merge of a start-sorted list.
pub open spec fn merge_spec(v: Seq<Range>) -> Seq<Range> {
    if v.len() == 0 {
        v
    } else {
        merge_from(v[0], v.drop_first())
    }
}

/// The normal form of an arbitrary list: sorted by start, then merged.
pub open spec fn normalize_spec(s: Seq<Range>) -> Seq<Range> {
    merge_spec(sort_spec(s))
}

proof fn lemma_insert_by_start_at(t: Seq<Range>, x: Range, pos: int)
    requires
        sorted_by_start(t),
        0 <= pos <= t.len(),
        forall|i: int| 0 <= i < pos ==> #[trigger] t[i].0 <= x.0,
        pos < t.len() ==> t[pos].0 > x.0,
    ensures
        insert_by_start(t, x) == t.take(pos).push(x) + t.skip(pos),
    decreases t.len(),
{
    if t.len() == 0 {
        assert(t.take(pos).push(x) + t.skip(pos) =~= seq![x]);
    } else if t.last().0 <= x.0 {
        if pos < t.len() {
            assert(t[pos].0 <= t[t.len() - 1].0);
        }
        assert(pos == t.len());
        assert(t.take(pos).push(x) + t.skip(pos) =~= t.push(x));
    } else {
        let u = t.drop_last();
        assert(pos < t.len()) by {
            if pos == t.len() {
                assert(t[t.len() - 1].0 <= x.0);
            }
        }
        assert(sorted_by_start(u)) by {
            assert forall|i: int, j: int| 0 <= i < j < u.len() implies #[trigger] u[i].0 <= #[trigger] u[j].0 by {
                assert(u[i] == t[i] && u[j] == t[j]);
            }
        }
        assert forall|i: int| 0 <= i < pos implies #[trigger] u[i].0 <= x.0 by {
            assert(u[i] == t[i]);
        }
        if pos < u.len() {
            assert(u[pos] == t[pos]);
        }
        lemma_insert_by_start_at(u, x, pos);
        assert((u.take(pos).push(x) + u.skip(pos)).push(t.last()) =~= t.take(pos).push(x) + t.skip(pos));
    }
}

/// Whether a range starts at `st`.
pub open spec fn starts_at(st: i64) -> spec_fn(Range) -> bool {
    |r: Range| r.0 == st
}

proof fn lemma_none_start_at(s: Seq<Range>, st: i64)
    requires
        forall|i: int| 0 <= i < s.len() ==> #[trigger] s[i].0 != st,
    ensures
        s.filter(starts_at(st)) == Seq::<Range>::empty(),
{
    let p = starts_at(st);
    assert forall|i: int| 0 <= i < s.len() implies !p(#[trigger] s[i]) by {}
    s.lemma_all_neg_filter_empty(p);
    assert(s.filter(p) =~= Seq::<Range>::empty());
}

/// Sorts ranges by their start (stable insertion sort): ranges with the same
/// start keep their order.
pub(crate) fn sort_by_start(v: &Vec<Range>) -> (out: Vec<Range>)
    ensures
        sorted_by_start(out@),
        out@.to_multiset() == v@.to_multiset(),
        out@.len() == v@.len(),
        v@.len() <= 1 ==> out@ == v@,
        forall|st: i64| #[trigger] out@.filter(starts_at(st)) == v@.filter(starts_at(st)),
        out@ == sort_spec(v@),
{
    let mut out: Vec<Range> = Vec::new();
    let n = v.len();
    let mut k: usize = 0;
    proof {
        assert(v@.take(0) =~= Seq::<Range>::empty());
        assert forall|st: i64| #[trigger] out@.filter(starts_at(st)) == v@.take(0).filter(starts_at(st)) by {
            reveal(Seq::filter);
            assert(v@.take(0) =~= Seq::<Range>::empty());
        }
    }
    while k < n
        invariant
            n == v.len(),
            k <= n,
            sorted_by_start(out@),
            out@.to_multiset() == v@.take(k as int).to_multiset(),
            out@.len() == k,
            forall|st: i64| #[trigger] out@.filter(starts_at(st)) == v@.take(k as int).filter(starts_at(st)),
            out@ == sort_spec(v@.take(k as int)),
        decreases n - k,
    {
        let x = v[k];
        let mut pos: usize = 0;
        while pos < out.len() && out[pos].0 <= x.0
            invariant
                pos <= out.len(),
                forall|i: int| 0 <= i < pos ==> #[trigger] out@[i].0 <= x.0,
            decreases out.len() - pos,
        {
            pos = pos + 1;
        }
        proof {
            assert(pos < out.len() ==> out@[pos as int].0 > x.0);
        }
        let ghost before = out@;
        out.insert(pos, x);
        proof {
            before.insert_ensures(pos as int, x);
            lemma_insert_by_start_at(before, x, pos as int);
            assert(v@.take(k + 1).drop_last() =~= v@.take(k as int));
            assert(v@.take(k + 1).last() == x);
            assert(out@ =~= before.take(pos as int).push(x) + before.skip(pos as int));
            assert forall|i: int, j: int| 0 <= i < j < out@.len() implies #[trigger] out@[i].0
                <= #[trigger] out@[j].0 by {
                if j < pos {
                } else if j == pos {
                } else if i < pos {
                    assert(out@[j] == before[j - 1]);
                } else if i == pos {
                    assert(out@[j] == before[j - 1]);
                    assert(before[pos as int].0 <= before[j - 1].0);
                } else {
                    assert(out@[j] == before[j - 1]);
                    assert(out@[i] == before[i - 1]);
                }
            }
            assert(v@.take(k + 1) =~= v@.take(k as int).push(x));
            let lo = before.take(pos as int);
            let hi = before.skip(pos as int);
            assert(out@ =~= lo + seq![x] + hi);
            assert(before =~= lo + hi);
            assert forall|st: i64| #[trigger] out@.filter(starts_at(st)) == v@.take(k + 1).filter(starts_at(st)) by {
                let p = starts_at(st);
                Seq::filter_distributes_over_add(lo + seq![x], hi, p);
                Seq::filter_distributes_over_add(lo, seq![x], p);
                Seq::filter_distributes_over_add(lo, hi, p);
                Seq::filter_distributes_over_add(v@.take(k as int), seq![x], p);
                assert(seq![x].filter(p) == (if x.0 == st { seq![x] } else { Seq::<Range>::empty() })) by {
                    reveal_with_fuel(Seq::filter, 2);
                    assert(seq![x].drop_last() =~= Seq::<Range>::empty());
                }
                if st == x.0 {
                    assert forall|i: int| 0 <= i < hi.len() implies #[trigger] hi[i].0 != st by {
                        assert(hi[i] == before[pos + i]);
                        if i > 0 {
                            assert(before[pos as int].0 <= before[pos + i].0);
                        }
                    }
                    lemma_none_start_at(hi, st);
                    assert(lo.filter(p) + Seq::<Range>::empty() =~= lo.filter(p));
                    assert(lo.filter(p) + seq![x] + Seq::<Range>::empty() =~= lo.filter(p) + seq![x]);
                } else {
                    assert(lo.filter(p) + Seq::<Range>::empty() =~= lo.filter(p));
                    assert(v@.take(k as int).filter(p) + Seq::<Range>::empty() =~= v@.take(k as int).filter(p));
                }
                assert(v@.take(k as int) + seq![x] =~= v@.take(k + 1));
            }
        }
        k = k + 1;
    }
    proof {
        assert(v@.take(n as int) =~= v@);
        if n == 1 {
            assert(out@.contains(out@[0]));
            assert(out@.to_multiset().count(out@[0]) > 0);
            assert(v@.contains(out@[0]));
            assert(out@ =~= v@);
        }
    }
    out
}

/// Merges overlapping or touching ranges of a list sorted by start.
fn merge_sorted(v: &Vec<Range>) -> (out: Vec<Range>)
    requires
        sorted_by_start(v@),
    ensures
        canonical(out@),
        points(out@) == points(v@),
        all_proper(v@) ==> all_proper(out@),
        out@.len() <= v@.len(),
        v@.len() <= 1 ==> out@ == v@,
        out@ == merge_spec(v@),
{
    let n = v.len();
    let mut merged: Vec<Range> = Vec::new();
    if n == 0 {
        proof {
            assert(merged@ =~= v@);
        }
        return merged;
    }
    let mut current: Range = v[0];
    let mut k: usize = 1;
    proof {
        assert(v@.take(1) =~= seq![v@[0]]);
        assert(seq![v@[0]] =~= Seq::<Range>::empty().push(v@[0]));
        assert(v@.skip(1) =~= v@.drop_first());
        assert(merged@ + merge_from(current, v@.skip(1)) =~= merge_from(current, v@.skip(1)));
        lemma_points_push(Seq::<Range>::empty(), v@[0]);
        assert(points(Seq::<Range>::empty()) =~= Set::empty());
    }
    while k < n
        invariant
            n == v.len(),
            1 <= k <= n,
            sorted_by_start(v@),
            canonical(merged@),
            forall|i: int| 0 <= i < merged@.len() ==> #[trigger] merged@[i].1 < current.0
                && merged@[i].0 <= current.0,
            forall|j: int| k <= j < n ==> current.0 <= #[trigger] v@[j].0,
            points(merged@.push(current)) == points(v@.take(k as int)),
            all_proper(v@) ==> all_proper(merged@) && current.0 < current.1,
            merged@.len() < k,
            k == 1 ==> merged@.len() == 0 && current == v@[0],
            merged@ + merge_from(current, v@.skip(k as int)) == merge_spec(v@),
        decreases n - k,
    {
        let (s, e) = v[k];
        let ghost old_merged = merged@;
        let ghost old_current = current;
        proof {
            assert(v@.take(k + 1) =~= v@.take(k as int).push((s, e)));
            lemma_points_push(v@.take(k as int), (s, e));
            lemma_points_push(merged@, current);
            assert(v@.skip(k as int)[0] == (s, e));
            assert(v@.skip(k as int).drop_first() =~= v@.skip(k + 1));
        }
        if s <= current.1 {
            let new_end = if current.1 >= e { current.1 } else { e };
            current = (current.0, new_end);
            proof {
                lemma_points_push(merged@, current);
                assert(Set::new(|p: int| covers(current, p)) =~= Set::new(
                    |p: int| covers(old_current, p),
                ).union(Set::new(|p: int| covers((s, e), p))));
                assert(points(merged@.push(current)) =~= points(v@.take(k + 1)));
                assert(merge_from(old_current, v@.skip(k as int)) == merge_from(current, v@.skip(k + 1)));
            }
        } else {
            proof {
                assert(forall|i: int| 0 <= i < old_merged.len() ==> #[trigger] old_merged[i].1
                    < old_current.0 && old_merged[i].0 <= old_current.0);
            }
            merged.push(current);
            current = (s, e);
            proof {
                assert forall|i: int, j: int| 0 <= i < j < merged@.len() implies #[trigger] merged@[i].0
                    <= #[trigger] merged@[j].0 && merged@[i].1 < merged@[j].0 by {
                    assert(merged@ == old_merged.push(old_current));
                    if j == merged@.len() - 1 {
                        assert(merged@[i] == old_merged[i]);
                        assert(merged@[j] == old_current);
                        assert(old_merged[i].1 < old_current.0);
                    } else {
                        assert(merged@[i] == old_merged[i]);
                        assert(merged@[j] == old_merged[j]);
                        assert(old_merged[i].0 <= old_merged[j].0);
                    }
                }
                assert forall|i: int| 0 <= i < merged@.len() implies #[trigger] merged@[i].1 < current.0
                    && merged@[i].0 <= current.0 by {
                    if i < merged@.len() - 1 {
                        assert(merged@[i] == old_merged[i]);
                    }
                }
                lemma_points_push(merged@, current);
                lemma_points_push(old_merged, old_current);
                assert(points(merged@.push(current)) =~= points(v@.take(k + 1)));
                assert(merge_from(old_current, v@.skip(k as int)) == seq![old_current] + merge_from(current, v@.skip(k + 1)));
                assert(merged@ + merge_from(current, v@.skip(k + 1)) =~= old_merged + (seq![old_current] + merge_from(current, v@.skip(k + 1))));
                if all_proper(v@) {
                    assert(v@[k as int].0 < v@[k as int].1);
                    assert forall|i: int| 0 <= i < merged@.len() implies #[trigger] merged@[i].0
                        < merged@[i].1 by {
                        if i < merged@.len() - 1 {
                            assert(merged@[i] == old_merged[i]);
                        }
                    }
                }
            }
        }
        proof {
            if all_proper(v@) {
                assert(v@[k as int].0 < v@[k as int].1);
            }
        }
        k = k + 1;
    }
    let ghost old_merged = merged@;
    proof {
        assert(forall|i: int| 0 <= i < old_merged.len() ==> #[trigger] old_merged[i].1
            < current.0 && old_merged[i].0 <= current.0);
    }
    merged.push(current);
    proof {
        assert(v@.take(n as int) =~= v@);
        assert(merged@ == old_merged.push(current));
        assert(v@.skip(n as int) =~= Seq::<Range>::empty());
        assert(merged@ =~= old_merged + merge_from(current, v@.skip(n as int)));
        assert forall|i: int, j: int| 0 <= i < j < merged@.len() implies #[trigger] merged@[i].0
            <= #[trigger] merged@[j].0 && merged@[i].1 < merged@[j].0 by {
            assert(merged@[i] == old_merged[i]);
            if j < merged@.len() - 1 {
                assert(merged@[j] == old_merged[j]);
                assert(old_merged[i].0 <= old_merged[j].0);
            } else {
                assert(merged@[j] == current);
                assert(old_merged[i].1 < current.0);
            }
        }
        if all_proper(v@) {
            assert forall|i: int| 0 <= i < merged@.len() implies #[trigger] merged@[i].0
                < merged@[i].1 by {
                if i < merged@.len() - 1 {
                    assert(merged@[i] == old_merged[i]);
                }
            }
        }
        if n == 1 {
            assert(merged@ =~= v@);
        }
    }
    merged
}

/// Sorts and merges an arbitrary list of ranges into normal form.
fn normalize_ranges(v: &Vec<Range>) -> (out: Vec<Range>)
    ensures
        canonical(out@),
        points(out@) == points(v@),
        all_proper(v@) ==> all_proper(out@),
        out@.len() <= v@.len(),
        v@.len() <= 1 ==> out@ == v@,
        out@ == normalize_spec(v@),
{
    let sorted = sort_by_start(v);
    proof {
        lemma_points_same_multiset(v@, sorted@);
    }
    merge_sorted(&sorted)
}


/// What removing `[start, end)` leaves of the range `r`: `r` itself when
/// they do not meet, else the parts of `r` before `start` and after `end`.
pub open spec fn cut_one(r: Range, start: i64, end: i64) -> Seq<Range> {
    if r.1 <= start || r.0 >= end {
        seq![r]
    } else {
        (if r.0 < start { seq![(r.0, start)] } else { Seq::empty() }) + (if r.1 > end {
            seq![(end, r.1)]
        } else {
            Seq::empty()
        })
    }
}

/// What removing `[start, end)` leaves of each range of `s`, in order.
pub open spec fn cut_pieces(s: Seq<Range>, start: i64, end: i64) -> Seq<Range>
    decreases s.len(),
{
    if s.len() == 0 {
        Seq::empty()
    } else {
        cut_pieces(s.drop_last(), start, end) + cut_one(s.last(), start, end)
    }
}

/// An ordered set of non-overlapping id ranges.
#[derive(Debug)]
pub struct RangeSet(Vec<Range>);

impl Clone for RangeSet {
    fn clone(&self) -> (r: RangeSet)
        ensures
            r@ == self@,
    {
        let mut v: Vec<Range> = Vec::new();
        let mut i: usize = 0;
        while i < self.0.len()
            invariant
                i <= self@.len(),
                v@ == self@.subrange(0, i as int),
            decreases self@.len() - i,
        {
            v.push(self.0[i]);
            proof {
                assert(self@.subrange(0, i + 1) =~= self@.subrange(0, i as int).push(self@[i as int]));
            }
            i = i + 1;
        }
        proof {
            assert(self@.subrange(0, self@.len() as int) =~= self@);
        }
        RangeSet(v)
    }
}

impl View for RangeSet {
    type V = Seq<Range>;

    closed spec fn view(&self) -> Seq<Range> {
        self.0@
    }
}

impl Default for RangeSet {
    fn default() -> (r: RangeSet)
        ensures
            r@ == Seq::<Range>::empty(),
            r.wf(),
    {
        RangeSet::new()
    }
}

impl RangeSet {
    /// The ranges are in normal form.
    pub open spec fn wf(&self) -> bool {
        canonical(self@)
    }

    /// The ids covered by the set.
    pub open spec fn covered_ids(&self) -> Set<int> {
        points(self@)
    }

    /// An empty set.
    pub fn new() -> (r: RangeSet)
        ensures
            r@ == Seq::<Range>::empty(),
            r.wf(),
    {
        RangeSet(Vec::new())
    }

    /// Builds a set from arbitrary ranges, merging overlapping and touching ones.
    pub fn from_ranges(ranges: Vec<Range>) -> (r: RangeSet)
        ensures
            r.wf(),
            r.covered_ids() == points(ranges@),
            all_proper(ranges@) ==> all_proper(r@),
            r@.len() <= ranges@.len(),
            ranges@.len() <= 1 ==> r@ == ranges@,
            canonical(ranges@) && all_proper(ranges@) ==> r@ == ranges@,
            r@ == normalize_spec(ranges@),
    {
        let r = RangeSet(normalize_ranges(&ranges));
        proof {
            if canonical(ranges@) && all_proper(ranges@) {
                lemma_normal_form_unique(r@, ranges@);
            }
        }
        r
    }

    /// Adds the ids `[start, end)`; an empty or inverted range changes nothing.
    pub fn insert(&mut self, start: i64, end: i64)
        requires
            old(self).wf(),
        ensures
            final(self).wf(),
            start >= end ==> final(self)@ == old(self)@,
            start < end ==> final(self).covered_ids() == old(self).covered_ids().union(
                interval(start as int, end as int),
            ),
            start < end ==> final(self)@ == normalize_spec(old(self)@.push((start, end))),
            all_proper(old(self)@) ==> all_proper(final(self)@),
    {
        if start >= end {
            return;
        }
        let mut v: Vec<Range> = Vec::new();
        std::mem::swap(&mut v, &mut self.0);
        let ghost before = v@;
        v.push((start, end));
        proof {
            lemma_points_push(before, (start, end));
            assert(Set::new(|p: int| covers((start, end), p)) =~= interval(start as int, end as int));
            if all_proper(before) {
                assert(all_proper(v@));
            }
        }
        self.0 = normalize_ranges(&v);
    }

    /// Adds the ids of `range`.
    pub fn insert_range(&mut self, range: Range)
        requires
            old(self).wf(),
        ensures
            final(self).wf(),
            range.0 >= range.1 ==> final(self)@ == old(self)@,
            range.0 < range.1 ==> final(self).covered_ids() == old(self).covered_ids().union(
                interval(range.0 as int, range.1 as int),
            ),
            range.0 < range.1 ==> final(self)@ == normalize_spec(old(self)@.push(range)),
            all_proper(old(self)@) ==> all_proper(final(self)@),
    {
        self.insert(range.0, range.1);
    }

    /// Removes the ids `[start, end)`; an empty or inverted range changes nothing.
    pub fn remove(&mut self, start: i64, end: i64)
        requires
            old(self).wf(),
        ensures
            final(self).wf(),
            start >= end ==> final(self)@ == old(self)@,
            start < end ==> final(self).covered_ids() == old(self).covered_ids().difference(
                interval(start as int, end as int),
            ),
            start < end ==> final(self)@ == normalize_spec(cut_pieces(old(self)@, start, end)),
            all_proper(old(self)@) ==> all_proper(final(self)@),
    {
        if start >= end {
            return;
        }
        let n = self.0.len();
        let mut kept: Vec<Range> = Vec::new();
        let mut k: usize = 0;
        let ghost cut = interval(start as int, end as int);
        proof {
            assert(points(kept@) =~= points(self@.take(0)).difference(cut));
            assert(self@.take(0) =~= Seq::<Range>::empty());
        }
        while k < n
            invariant
                n == self@.len(),
                k <= n,
                start < end,
                cut == interval(start as int, end as int),
                points(kept@) == points(self@.take(k as int)).difference(cut),
                all_proper(self@) ==> all_proper(kept@),
                kept@ == cut_pieces(self@.take(k as int), start, end),
            decreases n - k,
        {
            let (s, e) = self.0[k];
            let ghost prev = kept@;
            proof {
                assert(self@.take(k + 1) =~= self@.take(k as int).push((s, e)));
                assert(self@.take(k + 1).drop_last() =~= self@.take(k as int));
                lemma_points_push(self@.take(k as int), (s, e));
            }
            if e <= start || s >= end {
                kept.push((s, e));
                proof {
                    assert(kept@ =~= prev + cut_one((s, e), start, end));
                    lemma_points_push(prev, (s, e));
                    assert(points(kept@) =~= points(self@.take(k + 1)).difference(cut));
                    if all_proper(self@) {
                        assert(self@[k as int].0 < self@[k as int].1);
                    }
                }
            } else {
                if s < start {
                    kept.push((s, start));
                    proof {
                        lemma_points_push(prev, (s, start));
                    }
                }
                let ghost mid = kept@;
                if e > end {
                    kept.push((end, e));
                    proof {
                        lemma_points_push(mid, (end, e));
                    }
                }
                proof {
                    assert(points(kept@) =~= points(self@.take(k + 1)).difference(cut));
                    assert(kept@ =~= prev + cut_one((s, e), start, end));
                }
            }
            k = k + 1;
        }
        proof {
            assert(self@.take(n as int) =~= self@);
        }
        self.0 = normalize_ranges(&kept);
    }

    /// Whether the id `pos` is covered.
    pub fn contains(&self, pos: i64) -> (b: bool)
        ensures
            b == self.covered_ids().contains(pos as int),
    {
        let n = self.0.len();
        let mut i: usize = 0;
        while i < n
            invariant
                n == self@.len(),
                i <= n,
                forall|j: int| 0 <= j < i ==> !#[trigger] covers(self@[j], pos as int),
            decreases n - i,
        {
            let (s, e) = self.0[i];
            if s <= pos && pos < e {
                proof {
                    assert(covers(self@[i as int], pos as int));
                }
                return true;
            }
            i = i + 1;
        }
        false
    }

    /// Whether some stored range `(s, e)` has `s < end` and `e > start`.
    pub fn intersects(&self, start: i64, end: i64) -> (b: bool)
        requires
            self.wf(),
        ensures
            b == exists|i: int| 0 <= i < self@.len() && #[trigger] self@[i].0 < end && self@[i].1 > start,
            all_proper(self@) && start < end ==> (b <==> exists|p: int|
                start <= p < end && self.covered_ids().contains(p)),
    {
        let n = self.0.len();
        let mut i: usize = 0;
        while i < n
            invariant
                n == self@.len(),
                i <= n,
                forall|j: int| 0 <= j < i ==> !(#[trigger] self@[j].0 < end && self@[j].1 > start),
            decreases n - i,
        {
            let (s, e) = self.0[i];
            if s < end && e > start {
                proof {
                    assert(self@[i as int].0 < end && self@[i as int].1 > start);
                    if all_proper(self@) && start < end {
                        let p: int = if s > start { s as int } else { start as int };
                        assert(covers(self@[i as int], p));
                        assert(self.covered_ids().contains(p));
                    }
                }
                return true;
            }
            i = i + 1;
        }
        proof {
            if all_proper(self@) && start < end {
                assert forall|p: int| start <= p < end implies !self.covered_ids().contains(p) by {
                    if covered(self@, p) {
                        let j = choose|j: int| 0 <= j < self@.len() && #[trigger] covers(self@[j], p);
                        assert(!(self@[j].0 < end && self@[j].1 > start));
                    }
                }
            }
        }
        false
    }

    /// The stored ranges.
    pub fn ranges(&self) -> (r: &[Range])
        ensures
            r@ == self@,
    {
        self.0.as_slice()
    }

    /// Number of stored ranges.
    pub fn len(&self) -> (n: usize)
        ensures
            n == self@.len(),
    {
        self.0.len()
    }

    /// Whether no range is stored.
    pub fn is_empty(&self) -> (b: bool)
        ensures
            b == (self@.len() == 0),
    {
        self.0.len() == 0
    }

    /// Sum of `end - start` over the stored ranges.
    pub fn total_count(&self) -> (t: i64)
        requires
            spans_fit(self@),
        ensures
            t == span_sum(self@),
    {
        let n = self.0.len();
        let mut total: i64 = 0;
        let mut i: usize = 0;
        proof {
            assert(self@.take(0) =~= Seq::<Range>::empty());
        }
        while i < n
            invariant
                n == self@.len(),
                i <= n,
                spans_fit(self@),
                total == span_sum(self@.take(i as int)),
            decreases n - i,
        {
            let (s, e) = self.0[i];
            proof {
                assert(self@.take(i + 1).drop_last() =~= self@.take(i as int));
                assert(i64::MIN <= span_sum(self@.take(i + 1)) <= i64::MAX);
            }
            let span = e - s;
            total = total + span;
            i = i + 1;
        }
        proof {
            assert(self@.take(n as int) =~= self@);
        }
        total
    }

    /// Removes every range.
    pub fn clear(&mut self)
        ensures
            final(self)@ == Seq::<Range>::empty(),
            final(self).wf(),
    {
        self.0.clear();
    }
}


/// The ids of `need` that `have` lacks, as a list of non-empty ranges.
///
/// Every id of the result lies in `need` and not in `have`, and every such
/// id is covered. When `have` holds no empty or inverted range, the result is
/// itself in normal form.
pub fn rangeset_difference(have: &RangeSet, need: &RangeSet) -> (result: Vec<Range>)
    requires
        have.wf(),
        need.wf(),
    ensures
        points(result@) == need.covered_ids().difference(have.covered_ids()),
        all_proper(result@),
        all_proper(have@) ==> canonical(result@),
{
    let have_ranges = have.ranges();
    let need_ranges = need.ranges();
    let hlen = have_ranges.len();
    let nlen = need_ranges.len();
    let ghost hv = have@;
    let ghost nv = need@;
    let ghost hp = points(hv);
    let mut result: Vec<Range> = Vec::new();
    let mut a: usize = 0;
    while a < nlen
        invariant
            hlen == hv.len(),
            nlen == nv.len(),
            have_ranges@ == hv,
            need_ranges@ == nv,
            hp == points(hv),
            canonical(hv),
            canonical(nv),
            a <= nlen,
            all_proper(result@),
            forall|p: int| #[trigger] covered(result@, p) ==> covered(nv, p) && !hp.contains(p),
            forall|p: int| #[trigger] covered(nv.take(a as int), p) && !hp.contains(p) ==> covered(result@, p),
            all_proper(hv) ==> canonical(result@),
            all_proper(hv) ==> forall|i: int, b: int|
                0 <= i < result@.len() && a <= b < nlen ==> #[trigger] result@[i].1 < #[trigger] nv[b].0,
        decreases nlen - a,
    {
        let (ns, ne) = need_ranges[a];
        let mut start = ns;
        let end = ne;
        let mut finished = false;
        let ghost base = result@;
        while start < end && !finished
            invariant
                hlen == hv.len(),
                nlen == nv.len(),
                have_ranges@ == hv,
                need_ranges@ == nv,
                hp == points(hv),
                canonical(hv),
                canonical(nv),
                a < nlen,
                nv[a as int] == (ns, ne),
                end == ne,
                ns <= start,
                all_proper(result@),
                forall|p: int| #[trigger] covered(result@, p) ==> covered(nv, p) && !hp.contains(p),
                forall|p: int| #[trigger] covered(nv.take(a as int), p) && !hp.contains(p) ==> covered(result@, p),
                forall|p: int| ns <= p < (if finished { ne as int } else { start as int }) && p < ne
                    && !hp.contains(p) ==> #[trigger] covered(result@, p),
                all_proper(hv) ==> canonical(result@),
                all_proper(hv) ==> forall|i: int, b: int|
                    0 <= i < result@.len() && a < b < nlen ==> #[trigger] result@[i].1 < #[trigger] nv[b].0,
                all_proper(hv) && !finished ==> forall|i: int| 0 <= i < result@.len() ==> #[trigger] result@[i].1 < start,
            decreases (if start < end && !finished { end - start + 1 } else { 0int }),
        {
            let mut found = false;
            let mut stop = false;
            let mut j: usize = 0;
            let ghost pass_start = start;
            while j < hlen && !stop
                invariant
                    hlen == hv.len(),
                    nlen == nv.len(),
                    have_ranges@ == hv,
                    need_ranges@ == nv,
                    hp == points(hv),
                    canonical(hv),
                    canonical(nv),
                    a < nlen,
                    nv[a as int] == (ns, ne),
                    end == ne,
                    ns <= pass_start <= start,
                    pass_start < end,
                    !finished,
                    j <= hlen,
                    !found ==> start == pass_start,
                    found ==> start > pass_start,
                    stop && !found ==> j < hlen && hv[j as int].0 >= end,
                    stop && found ==> start >= end || (j < hlen && hv[j as int].0 >= end),
                    forall|i: int| 0 <= i < j ==> #[trigger] hv[i].1 <= start,
                    all_proper(result@),
                    forall|p: int| #[trigger] covered(result@, p) ==> covered(nv, p) && !hp.contains(p),
                    forall|p: int| #[trigger] covered(nv.take(a as int), p) && !hp.contains(p) ==> covered(result@, p),
                    forall|p: int| ns <= p < start && p < ne && !hp.contains(p) ==> #[trigger] covered(result@, p),
                    all_proper(hv) ==> canonical(result@),
                    all_proper(hv) ==> forall|i: int, b: int|
                        0 <= i < result@.len() && a < b < nlen ==> #[trigger] result@[i].1 < #[trigger] nv[b].0,
                    all_proper(hv) ==> forall|i: int| 0 <= i < result@.len() ==> #[trigger] result@[i].1 < start,
                decreases hlen - j + (if stop { 0int } else { 1int }),
            {
                let (hs, he) = have_ranges[j];
                if he <= start {
                    j = j + 1;
                } else if hs >= end {
                    stop = true;
                } else {
                    let ghost old_start = start;
                    let ghost prev = result@;
                    found = true;
                    if hs > start {
                        let piece_end = if hs < end { hs } else { end };
                        result.push((start, piece_end));
                        proof {
                            assert forall|p: int| #[trigger] covered(result@, p) implies covered(nv, p)
                                && !hp.contains(p) by {
                                lemma_covered_push(prev, (old_start, piece_end), p);
                                if covers((old_start, piece_end), p) {
                                    assert(covers(nv[a as int], p));
                                    if hp.contains(p) {
                                        let i = choose|i: int| 0 <= i < hv.len() && #[trigger] covers(hv[i], p);
                                        if i < j {
                                            assert(hv[i].1 <= old_start);
                                        } else if i > j {
                                            assert(hv[j as int].0 <= hv[i].0);
                                        }
                                    }
                                }
                            }
                            assert forall|p: int| #[trigger] covered(prev, p) implies covered(result@, p) by {
                                lemma_covered_push(prev, (old_start, piece_end), p);
                            }
                            if all_proper(hv) {
                                assert forall|i: int, k: int| 0 <= i < k < result@.len() implies #[trigger] result@[i].0
                                    <= #[trigger] result@[k].0 && result@[i].1 < result@[k].0 by {
                                    assert(result@[i] == prev[i]);
                                    if k < prev.len() {
                                        assert(result@[k] == prev[k]);
                                    }
                                }
                                assert forall|i: int, b: int| 0 <= i < result@.len() && a < b < nlen implies
                                    #[trigger] result@[i].1 < #[trigger] nv[b].0 by {
                                    if i < prev.len() {
                                        assert(result@[i] == prev[i]);
                                    } else {
                                        assert(nv[a as int].0 <= nv[b].0);
                                assert(nv[a as int].1 < nv[b].0);
                                    }
                                }
                            }
                        }
                    }
                    proof {
                        assert forall|p: int| #[trigger] covered(prev, p) implies covered(result@, p) by {
                            if result@ != prev {
                                lemma_covered_push(prev, (old_start, if hs < end { hs } else { end }), p);
                            }
                        }
                    }
                    start = if he > start { he } else { start };
                    proof {
                        assert(start == he);
                        assert forall|p: int| ns <= p < start && p < ne && !hp.contains(p) implies
                            #[trigger] covered(result@, p) by {
                            if p < old_start {
                                assert(covered(prev, p));
                            } else if p < hs {
                                lemma_covered_push(prev, (old_start, if hs < end { hs } else { end }), p);
                            } else {
                                if hs < he {
                                    assert(covers(hv[j as int], p));
                                }
                            }
                        }
                        if all_proper(hv) {
                            assert(hv[j as int].0 < hv[j as int].1);
                            assert forall|i: int| 0 <= i < result@.len() implies #[trigger] result@[i].1 < start by {
                                if i < prev.len() {
                                    assert(result@[i] == prev[i]);
                                }
                            }
                        }
                    }
                    if start >= end {
                        stop = true;
                    } else {
                        j = j + 1;
                    }
                }
            }
            if !found {
                let ghost prev = result@;
                result.push((start, end));
                finished = true;
                proof {
                    assert forall|p: int| #[trigger] covered(result@, p) implies covered(nv, p)
                        && !hp.contains(p) by {
                        lemma_covered_push(prev, (start, end), p);
                        if covers((start, end), p) {
                            assert(covers(nv[a as int], p));
                            if hp.contains(p) {
                                let i = choose|i: int| 0 <= i < hv.len() && #[trigger] covers(hv[i], p);
                                if i < j {
                                    assert(hv[i].1 <= start);
                                } else {
                                    assert(hv[j as int].0 <= hv[i].0);
                                }
                            }
                        }
                    }
                    assert forall|p: int| #[trigger] covered(prev, p) implies covered(result@, p) by {
                        lemma_covered_push(prev, (start, end), p);
                    }
                    assert forall|p: int| ns <= p < ne && !hp.contains(p) implies #[trigger] covered(result@, p) by {
                        lemma_covered_push(prev, (start, end), p);
                    }
                    if all_proper(hv) {
                        assert forall|i: int, k: int| 0 <= i < k < result@.len() implies #[trigger] result@[i].0
                            <= #[trigger] result@[k].0 && result@[i].1 < result@[k].0 by {
                            assert(result@[i] == prev[i]);
                            if k < prev.len() {
                                assert(result@[k] == prev[k]);
                            }
                        }
                        assert forall|i: int, b: int| 0 <= i < result@.len() && a < b < nlen implies
                            #[trigger] result@[i].1 < #[trigger] nv[b].0 by {
                            if i < prev.len() {
                                assert(result@[i] == prev[i]);
                            } else {
                                assert(nv[a as int].0 <= nv[b].0);
                                assert(nv[a as int].1 < nv[b].0);
                            }
                        }
                    }
                }
            }
        }
        proof {
            assert forall|p: int| #[trigger] covered(nv.take(a + 1), p) && !hp.contains(p) implies covered(result@, p) by {
                assert(nv.take(a + 1) =~= nv.take(a as int).push(nv[a as int]));
                lemma_covered_push(nv.take(a as int), nv[a as int], p);
            }
        }
        a = a + 1;
    }
    proof {
        assert(nv.take(nlen as int) =~= nv);
        assert(points(result@) =~= points(nv).difference(hp));
    }
    result
}


/// The union of two sets.
pub fn rangeset_union(a: &RangeSet, b: &RangeSet) -> (r: RangeSet)
    ensures
        r.wf(),
        r.covered_ids() == a.covered_ids().union(b.covered_ids()),
        all_proper(a@) && all_proper(b@) ==> all_proper(r@),
{
    let mut combined: Vec<Range> = Vec::new();
    let ar = a.ranges();
    let br = b.ranges();
    let mut i: usize = 0;
    proof {
        assert(points(combined@) =~= points(a@.take(0)));
    }
    while i < ar.len()
        invariant
            ar@ == a@,
            i <= ar.len(),
            combined@ == a@.take(i as int),
        decreases ar.len() - i,
    {
        combined.push(ar[i]);
        proof {
            assert(a@.take(i + 1) =~= a@.take(i as int).push(a@[i as int]));
        }
        i = i + 1;
    }
    proof {
        assert(a@.take(ar.len() as int) =~= a@);
    }
    let mut j: usize = 0;
    while j < br.len()
        invariant
            br@ == b@,
            j <= br.len(),
            combined@ == a@ + b@.take(j as int),
        decreases br.len() - j,
    {
        combined.push(br[j]);
        proof {
            assert(a@ + b@.take(j + 1) =~= (a@ + b@.take(j as int)).push(b@[j as int]));
        }
        j = j + 1;
    }
    proof {
        assert(b@.take(br.len() as int) =~= b@);
        assert(combined@ =~= a@ + b@);
        assert forall|p: int| points(combined@).contains(p) <==> points(a@).union(points(b@)).contains(p) by {
            if covered(combined@, p) {
                let k = choose|k: int| 0 <= k < combined@.len() && #[trigger] covers(combined@[k], p);
                if k < a@.len() {
                    assert(covers(a@[k], p));
                } else {
                    assert(covers(b@[k - a@.len()], p));
                }
            }
            if covered(a@, p) {
                let k = choose|k: int| 0 <= k < a@.len() && #[trigger] covers(a@[k], p);
                assert(covers(combined@[k], p));
            }
            if covered(b@, p) {
                let k = choose|k: int| 0 <= k < b@.len() && #[trigger] covers(b@[k], p);
                assert(covers(combined@[k + a@.len()], p));
            }
        }
        assert(points(combined@) =~= points(a@).union(points(b@)));
        if all_proper(a@) && all_proper(b@) {
            assert forall|k: int| 0 <= k < combined@.len() implies #[trigger] combined@[k].0 < combined@[k].1 by {
                if k < a@.len() {
                    assert(combined@[k] == a@[k]);
                } else {
                    assert(combined@[k] == b@[k - a@.len()]);
                }
            }
        }
    }
    RangeSet::from_ranges(combined)
}

/// The overlap of two ranges: the later start and the earlier end.
pub open spec fn overlap(x: Range, y: Range) -> Range {
    (if x.0 >= y.0 { x.0 } else { y.0 }, if x.1 <= y.1 { x.1 } else { y.1 })
}

/// The non-empty overlaps of `x` with each range of `bs`, in the order of `bs`.
pub open spec fn overlaps_with(x: Range, bs: Seq<Range>) -> Seq<Range>
    decreases bs.len(),
{
    if bs.len() == 0 {
        Seq::empty()
    } else {
        let o = overlap(x, bs.last());
        let front = overlaps_with(x, bs.drop_last());
        if o.0 < o.1 { front.push(o) } else { front }
    }
}

/// The non-empty overlaps of every range of `as_` with every range of `bs`,
/// by range of `as_` first and range of `bs` second.
pub open spec fn all_overlaps(as_: Seq<Range>, bs: Seq<Range>) -> Seq<Range>
    decreases as_.len(),
{
    if as_.len() == 0 {
        Seq::empty()
    } else {
        all_overlaps(as_.drop_last(), bs) + overlaps_with(as_.last(), bs)
    }
}

proof fn lemma_overlaps_with_bounds(x: Range, bs: Seq<Range>)
    ensures
        forall|k: int| 0 <= k < overlaps_with(x, bs).len() ==> x.0 <= #[trigger] overlaps_with(x, bs)[k].0
            && overlaps_with(x, bs)[k].0 < overlaps_with(x, bs)[k].1 && overlaps_with(x, bs)[k].1 <= x.1,
    decreases bs.len(),
{
    if bs.len() > 0 {
        let t = bs.drop_last();
        lemma_overlaps_with_bounds(x, t);
        let front = overlaps_with(x, t);
        let o = overlap(x, bs.last());
        let ow = overlaps_with(x, bs);
        assert forall|k: int| 0 <= k < ow.len() implies x.0 <= #[trigger] ow[k].0 && ow[k].0 < ow[k].1
            && ow[k].1 <= x.1 by {
            if k < front.len() {
                assert(ow[k] == front[k]);
            } else {
                assert(ow[k] == o);
            }
        }
    }
}

proof fn lemma_overlaps_with_below(x: Range, bs: Seq<Range>, c: int)
    requires
        forall|j: int| 0 <= j < bs.len() ==> #[trigger] bs[j].1 < c,
    ensures
        forall|k: int| 0 <= k < overlaps_with(x, bs).len() ==> #[trigger] overlaps_with(x, bs)[k].1 < c,
    decreases bs.len(),
{
    if bs.len() > 0 {
        let t = bs.drop_last();
        assert forall|j: int| 0 <= j < t.len() implies #[trigger] t[j].1 < c by {
            assert(t[j] == bs[j]);
        }
        lemma_overlaps_with_below(x, t, c);
        assert(bs.last() == bs[bs.len() - 1]);
        let front = overlaps_with(x, t);
        let o = overlap(x, bs.last());
        let ow = overlaps_with(x, bs);
        assert forall|k: int| 0 <= k < ow.len() implies #[trigger] ow[k].1 < c by {
            if k < front.len() {
                assert(ow[k] == front[k]);
            } else {
                assert(ow[k] == o);
            }
        }
    }
}

proof fn lemma_canonical_prefix(s: Seq<Range>)
    requires
        canonical(s),
        s.len() > 0,
    ensures
        canonical(s.drop_last()),
        forall|j: int| 0 <= j < s.len() - 1 ==> #[trigger] s.drop_last()[j].1 < s.last().0,
{
    let t = s.drop_last();
    assert forall|i: int, j: int| 0 <= i < j < t.len() implies #[trigger] t[i].0 <= #[trigger] t[j].0
        && t[i].1 < t[j].0 by {
        assert(t[i] == s[i] && t[j] == s[j]);
        assert(s[i].0 <= s[j].0 && s[i].1 < s[j].0);
    }
    assert forall|j: int| 0 <= j < s.len() - 1 implies #[trigger] t[j].1 < s.last().0 by {
        assert(t[j] == s[j]);
        assert(s[j].0 <= s[s.len() - 1].0);
    }
}

/// Two lists in normal form, the first ending before the second starts,
/// joined in order are in normal form.
proof fn lemma_canonical_concat(f: Seq<Range>, g: Seq<Range>)
    requires
        canonical(f),
        canonical(g),
        all_proper(f),
        forall|k: int| 0 <= k < f.len() ==> forall|m: int| 0 <= m < g.len() ==> #[trigger] f[k].1 < #[trigger] g[m].0,
    ensures
        canonical(f + g),
{
    let h = f + g;
    assert forall|i: int, j: int| 0 <= i < j < h.len() implies #[trigger] h[i].0 <= #[trigger] h[j].0 && h[i].1 < h[j].0 by {
        if j < f.len() {
            assert(h[i] == f[i] && h[j] == f[j]);
        } else if i >= f.len() {
            assert(h[i] == g[i - f.len()] && h[j] == g[j - f.len()]);
        } else {
            assert(h[i] == f[i] && h[j] == g[j - f.len()]);
            assert(f[i].1 < g[j - f.len()].0);
            assert(f[i].0 < f[i].1);
        }
    }
}

proof fn lemma_overlaps_with_canonical(x: Range, bs: Seq<Range>)
    requires
        canonical(bs),
    ensures
        canonical(overlaps_with(x, bs)),
    decreases bs.len(),
{
    if bs.len() > 0 {
        let t = bs.drop_last();
        lemma_canonical_prefix(bs);
        lemma_overlaps_with_canonical(x, t);
        let front = overlaps_with(x, t);
        let o = overlap(x, bs.last());
        if o.0 < o.1 {
            lemma_overlaps_with_below(x, t, bs.last().0 as int);
            lemma_overlaps_with_bounds(x, t);
            assert(canonical(seq![o]));
            assert(all_proper(front));
            lemma_canonical_concat(front, seq![o]);
            assert(front + seq![o] =~= front.push(o));
        }
    }
}

proof fn lemma_all_overlaps_below(as_: Seq<Range>, bs: Seq<Range>, c: int)
    requires
        forall|i: int| 0 <= i < as_.len() ==> #[trigger] as_[i].1 < c,
    ensures
        forall|k: int| 0 <= k < all_overlaps(as_, bs).len() ==> #[trigger] all_overlaps(as_, bs)[k].1 < c,
        all_proper(all_overlaps(as_, bs)),
    decreases as_.len(),
{
    if as_.len() > 0 {
        let t = as_.drop_last();
        assert forall|i: int| 0 <= i < t.len() implies #[trigger] t[i].1 < c by {
            assert(t[i] == as_[i]);
        }
        lemma_all_overlaps_below(t, bs, c);
        lemma_overlaps_with_bounds(as_.last(), bs);
        assert(as_.last() == as_[as_.len() - 1]);
        let f = all_overlaps(t, bs);
        let g = overlaps_with(as_.last(), bs);
        assert(all_overlaps(as_, bs) == f + g);
        assert forall|k: int| 0 <= k < (f + g).len() implies #[trigger] (f + g)[k].1 < c && (f + g)[k].0 < (f + g)[k].1 by {
            if k < f.len() {
                assert((f + g)[k] == f[k]);
            } else {
                assert((f + g)[k] == g[k - f.len()]);
                assert(as_.last().0 <= g[k - f.len()].0);
                assert(g[k - f.len()].1 <= as_.last().1);
            }
        }
    }
}

/// Meeting two lists in normal form range by range gives a list in normal
/// form.
pub proof fn lemma_all_overlaps_canonical(as_: Seq<Range>, bs: Seq<Range>)
    requires
        canonical(as_),
        canonical(bs),
    ensures
        canonical(all_overlaps(as_, bs)),
        all_proper(all_overlaps(as_, bs)),
    decreases as_.len(),
{
    if as_.len() > 0 {
        let t = as_.drop_last();
        lemma_canonical_prefix(as_);
        lemma_all_overlaps_canonical(t, bs);
        lemma_overlaps_with_canonical(as_.last(), bs);
        lemma_all_overlaps_below(t, bs, as_.last().0 as int);
        lemma_overlaps_with_bounds(as_.last(), bs);
        let f = all_overlaps(t, bs);
        let g = overlaps_with(as_.last(), bs);
        assert forall|k: int| 0 <= k < f.len() implies forall|m: int| 0 <= m < g.len() ==> #[trigger] f[k].1 < #[trigger] g[m].0 by {
            assert(f[k].1 < as_.last().0);
        }
        lemma_canonical_concat(f, g);
        lemma_all_overlaps_below(as_, bs, i64::MAX as int + 1);
    }
}

/// The ids present in both sets, as a list of non-empty ranges: each range of
/// `a` in turn met with each range of `b`.
pub fn rangeset_intersection(a: &RangeSet, b: &RangeSet) -> (result: Vec<Range>)
    ensures
        result@ == all_overlaps(a@, b@),
        points(result@) == a.covered_ids().intersect(b.covered_ids()),
        all_proper(result@),
        a.wf() && b.wf() ==> canonical(result@),
{
    let ar = a.ranges();
    let br = b.ranges();
    let mut result: Vec<Range> = Vec::new();
    let mut i: usize = 0;
    while i < ar.len()
        invariant
            ar@ == a@,
            br@ == b@,
            i <= ar.len(),
            result@ == all_overlaps(a@.take(i as int), b@),
            all_proper(result@),
            forall|p: int| #[trigger] covered(result@, p) ==> covered(a@, p) && covered(b@, p),
            forall|p: int| covered(a@.take(i as int), p) && covered(b@, p) ==> #[trigger] covered(result@, p),
        decreases ar.len() - i,
    {
        let (as_, ae) = ar[i];
        let mut j: usize = 0;
        while j < br.len()
            invariant
                ar@ == a@,
                br@ == b@,
                i < ar.len(),
                a@[i as int] == (as_, ae),
                j <= br.len(),
                result@ == all_overlaps(a@.take(i as int), b@) + overlaps_with((as_, ae), b@.take(j as int)),
                all_proper(result@),
                forall|p: int| #[trigger] covered(result@, p) ==> covered(a@, p) && covered(b@, p),
                forall|p: int| covered(a@.take(i as int), p) && covered(b@, p) ==> #[trigger] covered(result@, p),
                forall|p: int| covers((as_, ae), p) && covered(b@.take(j as int), p) ==> #[trigger] covered(result@, p),
            decreases br.len() - j,
        {
            let (bs, be) = br[j];
            let start = if as_ >= bs { as_ } else { bs };
            let end = if ae <= be { ae } else { be };
            let ghost prev = result@;
            if start < end {
                result.push((start, end));
            }
            proof {
                assert(b@.take(j + 1) =~= b@.take(j as int).push(b@[j as int]));
                assert(b@.take(j + 1).drop_last() =~= b@.take(j as int));
                assert(result@ =~= all_overlaps(a@.take(i as int), b@) + overlaps_with((as_, ae), b@.take(j + 1)));
                assert forall|p: int| #[trigger] covered(result@, p) implies covered(a@, p) && covered(b@, p) by {
                    if start < end {
                        lemma_covered_push(prev, (start, end), p);
                        if covers((start, end), p) {
                            assert(covers(a@[i as int], p));
                            assert(covers(b@[j as int], p));
                        }
                    }
                }
                assert forall|p: int| #[trigger] covered(prev, p) implies covered(result@, p) by {
                    if start < end {
                        lemma_covered_push(prev, (start, end), p);
                    }
                }
                assert forall|p: int| covered(a@.take(i as int), p) && covered(b@, p) implies #[trigger] covered(result@, p) by {
                    assert(covered(prev, p));
                }
                assert forall|p: int| covers((as_, ae), p) && covered(b@.take(j + 1), p) implies #[trigger] covered(result@, p) by {
                    lemma_covered_push(b@.take(j as int), b@[j as int], p);
                    if covered(b@.take(j as int), p) {
                        assert(covered(prev, p));
                    }
                    if covers(b@[j as int], p) && start < end {
                        lemma_covered_push(prev, (start, end), p);
                    }
                }
            }
            j = j + 1;
        }
        proof {
            assert(b@.take(br.len() as int) =~= b@);
            assert(a@.take(i + 1) =~= a@.take(i as int).push(a@[i as int]));
            assert(a@.take(i + 1).drop_last() =~= a@.take(i as int));
            assert(result@ =~= all_overlaps(a@.take(i + 1), b@));
            assert forall|p: int| covered(a@.take(i + 1), p) && covered(b@, p) implies #[trigger] covered(result@, p) by {
                lemma_covered_push(a@.take(i as int), a@[i as int], p);
            }
        }
        i = i + 1;
    }
    proof {
        assert(a@.take(ar.len() as int) =~= a@);
        assert(points(result@) =~= points(a@).intersect(points(b@)));
        if a.wf() && b.wf() {
            lemma_all_overlaps_canonical(a@, b@);
        }
    }
    result
}

/// The set holding the single range `[0, count)`.
pub fn make_target_range(count: usize) -> (r: RangeSet)
    ensures
        r.wf(),
        r@ == seq![(0i64, count as i64)],
{
    let mut v: Vec<Range> = Vec::new();
    v.push((0, count as i64));
    proof {
        assert(v@ =~= seq![(0i64, count as i64)]);
    }
    RangeSet::from_ranges(v)
}

/// The ranges of a set in normal form that covers exactly the ids listed
/// in `ids` (a list no longer than `i64::MAX`) have spans and running totals
/// that fit in an `i64`, and their total span is the number of distinct ids.
pub proof fn lemma_id_ranges_count(r: Seq<Range>, ids: Seq<i64>)
    requires
        canonical(r),
        all_proper(r),
        points(r) == id_set(ids),
        ids.len() <= i64::MAX,
    ensures
        spans_fit(r),
        span_sum(r) == id_set(ids).len(),
{
    lemma_span_sum_counts_points(r);
    let m = ids.map_values(|x: i64| x as int);
    assert forall|p: int| id_set(ids).contains(p) <==> m.to_set().contains(p) by {
        if id_set(ids).contains(p) {
            let i = choose|i: int| 0 <= i < ids.len() && ids[i] == p;
            assert(m[i] == p);
        }
        if m.to_set().contains(p) {
            let i = choose|i: int| 0 <= i < m.len() && m[i] == p;
            assert(ids[i] == p);
        }
    }
    assert(id_set(ids) =~= m.to_set());
    m.lemma_cardinality_of_set();
    assert forall|k: int| 0 <= k <= r.len() implies 0 <= #[trigger] span_sum(r.take(k)) <= i64::MAX by {
        let t = r.take(k);
        assert(canonical(t)) by {
            assert forall|i: int, j: int| 0 <= i < j < t.len() implies #[trigger] t[i].0 <= #[trigger] t[j].0
                && t[i].1 < t[j].0 by {
                assert(t[i] == r[i] && t[j] == r[j]);
                assert(r[i].0 <= r[j].0 && r[i].1 < r[j].0);
            }
        }
        assert(all_proper(t)) by {
            assert forall|i: int| 0 <= i < t.len() implies #[trigger] t[i].0 < t[i].1 by {
                assert(t[i] == r[i]);
            }
        }
        lemma_span_sum_counts_points(t);
        assert(points(t).subset_of(points(r))) by {
            assert forall|p: int| points(t).contains(p) implies points(r).contains(p) by {
                let i = choose|i: int| 0 <= i < t.len() && #[trigger] covers(t[i], p);
                assert(t[i] == r[i]);
                assert(covers(r[i], p));
            }
        }
        vstd::set_lib::lemma_len_subset(points(t), points(r));
    }
    assert forall|i: int| 0 <= i < r.len() implies i64::MIN <= #[trigger] r[i].1 - r[i].0 <= i64::MAX by {
        assert(r.take(i + 1).drop_last() =~= r.take(i));
        assert(r.take(i + 1).last() == r[i]);
        assert(0 <= span_sum(r.take(i)));
        assert(span_sum(r.take(i + 1)) <= i64::MAX);
    }
}

/// The ids listed in `ids`, as an integer set.
pub open spec fn id_set(ids: Seq<i64>) -> Set<int> {
    Set::new(|p: int| exists|i: int| 0 <= i < ids.len() && ids[i] == p)
}

/// Sorts ids in ascending order (insertion sort).
fn sort_ids(v: &[i64]) -> (out: Vec<i64>)
    ensures
        forall|i: int, j: int| 0 <= i < j < out@.len() ==> #[trigger] out@[i] <= #[trigger] out@[j],
        out@.to_multiset() == v@.to_multiset(),
        out@.len() == v@.len(),
{
    let mut out: Vec<i64> = Vec::new();
    let n = v.len();
    let mut k: usize = 0;
    while k < n
        invariant
            n == v@.len(),
            k <= n,
            forall|i: int, j: int| 0 <= i < j < out@.len() ==> #[trigger] out@[i] <= #[trigger] out@[j],
            out@.to_multiset() == v@.take(k as int).to_multiset(),
            out@.len() == k,
        decreases n - k,
    {
        let x = v[k];
        let mut pos: usize = 0;
        while pos < out.len() && out[pos] <= x
            invariant
                pos <= out.len(),
                forall|i: int| 0 <= i < pos ==> #[trigger] out@[i] <= x,
            decreases out.len() - pos,
        {
            pos = pos + 1;
        }
        let ghost before = out@;
        out.insert(pos, x);
        proof {
            before.insert_ensures(pos as int, x);
            assert forall|i: int, j: int| 0 <= i < j < out@.len() implies #[trigger] out@[i]
                <= #[trigger] out@[j] by {
                if j < pos {
                } else if j == pos {
                } else if i < pos {
                    assert(out@[j] == before[j - 1]);
                } else if i == pos {
                    assert(out@[j] == before[j - 1]);
                    assert(before[pos as int] <= before[j - 1]);
                } else {
                    assert(out@[j] == before[j - 1]);
                    assert(out@[i] == before[i - 1]);
                }
            }
            assert(v@.take(k + 1) =~= v@.take(k as int).push(x));
        }
        k = k + 1;
    }
    proof {
        assert(v@.take(n as int) =~= v@);
    }
    out
}

/// The set of ids listed in `ids`, grouped into maximal runs of consecutive ids.
pub fn from_ids(ids: &[i64]) -> (r: RangeSet)
    requires
        forall|i: int| 0 <= i < ids@.len() ==> #[trigger] ids@[i] < i64::MAX,
    ensures
        r.wf(),
        r.covered_ids() == id_set(ids@),
        all_proper(r@),
        ids@.len() <= i64::MAX ==> spans_fit(r@) && span_sum(r@) == id_set(ids@).len(),
{
    if ids.len() == 0 {
        proof {
            assert(id_set(ids@) =~= Set::<int>::empty());
        }
        let r = RangeSet::new();
        proof {
            assert(r.covered_ids() =~= Set::<int>::empty());
            lemma_id_ranges_count(r@, ids@);
        }
        return r;
    }
    let sorted = sort_ids(ids);
    let ghost sv = sorted@;
    proof {
        assert forall|x: i64| sv.contains(x) <==> ids@.contains(x) by {
            assert(sv.contains(x) <==> sv.to_multiset().count(x) > 0);
            assert(ids@.contains(x) <==> ids@.to_multiset().count(x) > 0);
        }
        assert forall|i: int| 0 <= i < sv.len() implies #[trigger] sv[i] < i64::MAX by {
            assert(sv.contains(sv[i]));
        }
    }
    let n = sorted.len();
    let mut ranges: Vec<Range> = Vec::new();
    let mut start = sorted[0];
    let mut end = start + 1;
    let mut k: usize = 1;
    proof {
        assert(sv.take(1) =~= seq![sv[0]]);
        assert forall|p: int| points(ranges@.push((start, end))).contains(p) <==> id_set(sv.take(1)).contains(p) by {
            lemma_covered_push(ranges@, (start, end), p);
            let t = sv.take(1);
            if id_set(t).contains(p) {
                let i = choose|i: int| 0 <= i < t.len() && t[i] == p;
            }
            if covers((start, end), p) {
                assert(sv.take(1)[0] == p);
            }
        }
        assert(points(ranges@.push((start, end))) =~= id_set(sv.take(1)));
    }
    while k < n
        invariant
            n == sv.len(),
            sorted@ == sv,
            1 <= k <= n,
            forall|i: int, j: int| 0 <= i < j < sv.len() ==> #[trigger] sv[i] <= #[trigger] sv[j],
            forall|i: int| 0 <= i < sv.len() ==> #[trigger] sv[i] < i64::MAX,
            end == sv[k - 1] + 1,
            start < end,
            all_proper(ranges@),
            canonical(ranges@.push((start, end))),
            points(ranges@.push((start, end))) == id_set(sv.take(k as int)),
        decreases n - k,
    {
        let id = sorted[k];
        let ghost old_ranges = ranges@;
        let ghost old_range = (start, end);
        proof {
            assert(sv[k - 1] <= sv[k as int]);
            assert(sv.take(k + 1) =~= sv.take(k as int).push(id));
            let t1 = sv.take(k + 1);
            let t0 = sv.take(k as int);
            assert(id_set(t1) =~= id_set(t0).insert(id as int)) by {
                assert forall|p: int| id_set(t1).contains(p) implies id_set(t0).insert(id as int).contains(p) by {
                    let i = choose|i: int| 0 <= i < t1.len() && t1[i] == p;
                    if i < k {
                        assert(t0[i] == p);
                    }
                }
                assert forall|p: int| id_set(t0).insert(id as int).contains(p) implies id_set(t1).contains(p) by {
                    if p == id {
                        assert(t1[k as int] == p);
                    } else {
                        let i = choose|i: int| 0 <= i < t0.len() && t0[i] == p;
                        assert(t1[i] == p);
                    }
                }
            }
            lemma_points_push(old_ranges, old_range);
        }
        if id == end {
            end = end + 1;
            proof {
                lemma_points_push(old_ranges, (start, end));
                assert(Set::new(|p: int| covers((start, end), p)) =~= Set::new(|p: int| covers(old_range, p)).insert(id as int));
                assert(points(ranges@.push((start, end))) =~= id_set(sv.take(k + 1)));
                assert forall|i: int, j: int| 0 <= i < j < ranges@.push((start, end)).len() implies
                    #[trigger] ranges@.push((start, end))[i].0 <= #[trigger] ranges@.push((start, end))[j].0
                    && ranges@.push((start, end))[i].1 < ranges@.push((start, end))[j].0 by {
                    assert(old_ranges.push(old_range)[i].0 <= old_ranges.push(old_range)[j].0);
                }
            }
        } else if id > end {
            ranges.push((start, end));
            start = id;
            end = id + 1;
            proof {
                assert(ranges@ == old_ranges.push(old_range));
                lemma_points_push(ranges@, (start, end));
                assert(Set::new(|p: int| covers((start, end), p)) =~= Set::<int>::empty().insert(id as int));
                assert(points(ranges@.push((start, end))) =~= id_set(sv.take(k + 1)));
                assert forall|i: int, j: int| 0 <= i < j < ranges@.push((start, end)).len() implies
                    #[trigger] ranges@.push((start, end))[i].0 <= #[trigger] ranges@.push((start, end))[j].0
                    && ranges@.push((start, end))[i].1 < ranges@.push((start, end))[j].0 by {
                    if j < ranges@.len() {
                        assert(old_ranges.push(old_range)[i].0 <= old_ranges.push(old_range)[j].0);
                    } else if i < ranges@.len() - 1 {
                        assert(old_ranges.push(old_range)[i].0 <= old_ranges.push(old_range)[ranges@.len() - 1].0);
                    }
                }
                assert(all_proper(ranges@));
            }
        } else {
            proof {
                assert(covers(old_range, id as int));
                assert(points(ranges@.push((start, end))) =~= id_set(sv.take(k + 1)));
            }
        }
        k = k + 1;
    }
    ranges.push((start, end));
    proof {
        assert(sv.take(n as int) =~= sv);
        assert(id_set(sv) =~= id_set(ids@)) by {
            assert forall|p: int| id_set(sv).contains(p) implies id_set(ids@).contains(p) by {
                let i = choose|i: int| 0 <= i < sv.len() && sv[i] == p;
                assert(sv.contains(sv[i]));
            }
            assert forall|p: int| id_set(ids@).contains(p) implies id_set(sv).contains(p) by {
                let i = choose|i: int| 0 <= i < ids@.len() && ids@[i] == p;
                assert(ids@.contains(ids@[i]));
                assert(sv.contains(ids@[i]));
                let j = choose|j: int| 0 <= j < sv.len() && sv[j] == ids@[i];
                assert(sv[j] == p);
            }
        }
    }
    let r = RangeSet::from_ranges(ranges);
    proof {
        if ids@.len() <= i64::MAX {
            lemma_id_ranges_count(r@, ids@);
        }
    }
    r
}

} // verus!
