//! Grouping of daily bars into bars of several days.
//!
//! A period of `k` days covers the days of the `k`-day buckets counted from
//! the epoch. Of several bars of one day the last listed counts; a bucket
//! becomes a bar only when all of its `k` days are present. Combining the
//! prices of a group is left to the caller; this module says which bars form
//! each group.

use vstd::prelude::*;

use crate::net::history::{compute_bucket_id, Error};
use crate::storage::rows::{
    id_set_of, ids_increasing, index_by_id, index_by_id_first, keyed, keyed_first,
    lemma_keyed_dom,
};
use crate::storage::segments::strictly_increasing;

verus! {

/// How a daily-or-longer period is served.
#[derive(Debug, Clone, Copy, PartialEq, Eq, Structural)]
pub enum DailyPeriod {
    /// One day: the daily bars themselves.
    SingleDay,
    /// `days` days per bar, `days` at least 2.
    Days { days: u32 },
}

/// The daily-or-longer period of `duration_seconds`, if it is a whole
/// number of days.
pub open spec fn daily_period_spec(duration_seconds: u32) -> Option<DailyPeriod> {
    if duration_seconds < 86_400 || duration_seconds % 86_400 != 0 {
        None
    } else if duration_seconds == 86_400 {
        Some(DailyPeriod::SingleDay)
    } else {
        Some(DailyPeriod::Days { days: (duration_seconds / 86_400) as u32 })
    }
}

/// The period, or the parse error for a period that is not whole days.
pub fn daily_period(duration_seconds: u32) -> (r: Result<DailyPeriod, Error>)
    ensures
        r matches Ok(p) ==> daily_period_spec(duration_seconds) == Some(p),
        r is Err <==> daily_period_spec(duration_seconds) is None,
        r matches Err(e) ==> (e matches Error::Parse(m) && m@
            == "duration_seconds must be a multiple of 86400 for daily-or-higher periods"@),
{
    if duration_seconds < 86_400 || duration_seconds % 86_400 != 0 {
        return Err(Error::Parse(String::from_str(
            "duration_seconds must be a multiple of 86400 for daily-or-higher periods",
        )));
    }
    if duration_seconds == 86_400 {
        return Ok(DailyPeriod::SingleDay);
    }
    Ok(DailyPeriod::Days { days: duration_seconds / 86_400 })
}

/// Each id of `ids` with its position.
pub open spec fn indexed(ids: Seq<i64>) -> Seq<(i64, usize)> {
    Seq::new(ids.len(), |i: int| (ids[i], i as usize))
}

/// The daily bars in id order, one per id: of bars sharing an id the first
/// listed is kept. Each entry is an id and the position of its bar.
pub fn daily_order(ids: &[i64]) -> (r: Vec<(i64, usize)>)
    ensures
        ids_increasing(r@),
        keyed(r@) == keyed_first(indexed(ids@)),
{
    let mut rows: Vec<(i64, usize)> = Vec::new();
    let mut i: usize = 0;
    while i < ids.len()
        invariant
            i <= ids@.len(),
            rows@ == indexed(ids@).take(i as int),
        decreases ids@.len() - i,
    {
        rows.push((ids[i], i));
        proof {
            assert(indexed(ids@).take(i + 1) =~= indexed(ids@).take(i as int).push((ids@[i as int], i)));
        }
        i = i + 1;
    }
    proof {
        assert(indexed(ids@).take(ids@.len() as int) =~= indexed(ids@));
    }
    index_by_id_first(rows)
}

/// The day of a time stamp in nanoseconds, counted from the epoch.
pub open spec fn day_of(dt: i64) -> int {
    dt as int / 86_400_000_000_000
}

/// The bucket of a time stamp for a period of `duration_seconds`.
pub open spec fn bucket_of_time(dt: i64, duration_seconds: u32) -> int {
    dt as int / (duration_seconds * 1_000_000_000)
}

/// The bars of bucket `b`, in listing order, each as its day and position.
pub open spec fn bucket_rows(dts: Seq<i64>, duration_seconds: u32, b: int) -> Seq<(i64, usize)>
    decreases dts.len(),
{
    if dts.len() == 0 {
        Seq::empty()
    } else {
        let rest = bucket_rows(dts.drop_last(), duration_seconds, b);
        let dt = dts.last();
        if bucket_of_time(dt, duration_seconds) == b {
            rest.push((day_of(dt) as i64, (dts.len() - 1) as usize))
        } else {
            rest
        }
    }
}

/// The bars of one bucket that make a multi-day bar: for each of its days,
/// in day order, the day and the position of the last bar of that day.
#[derive(Debug, Clone, PartialEq, Eq)]
pub struct DayGroup {
    pub bucket_id: i64,
    pub members: Vec<(i64, usize)>,
}

/// A bucket with all `days` of its days present.
pub open spec fn bucket_complete(dts: Seq<i64>, duration_seconds: u32, b: int, days: nat) -> bool {
    id_set_of(bucket_rows(dts, duration_seconds, b)).len() == days
}

fn insert_unique_sorted(v: &mut Vec<i64>, x: i64)
    requires
        strictly_increasing(old(v)@),
    ensures
        strictly_increasing(final(v)@),
        forall|y: i64| final(v)@.contains(y) <==> old(v)@.contains(y) || y == x,
{
    let mut pos: usize = 0;
    while pos < v.len() && v[pos] < x
        invariant
            pos <= v@.len(),
            forall|k: int| 0 <= k < pos ==> #[trigger] v@[k] < x,
        decreases v@.len() - pos,
    {
        pos = pos + 1;
    }
    if pos < v.len() && v[pos] == x {
        proof {
            assert(v@.contains(x)) by {
                assert(v@[pos as int] == x);
            }
        }
        return;
    }
    let ghost before = v@;
    proof {
        assert forall|k: int| pos <= k < before.len() implies #[trigger] before[k] > x by {
            if k > pos {
                assert(before[pos as int] < before[k]);
            }
        }
    }
    v.insert(pos, x);
    proof {
        before.insert_ensures(pos as int, x);
        assert forall|a: int, b: int| 0 <= a < b < v@.len() implies #[trigger] v@[a] < #[trigger] v@[b] by {
            if b < pos {
            } else if b == pos {
            } else if a < pos {
                assert(v@[b] == before[b - 1]);
            } else if a == pos {
                assert(v@[b] == before[b - 1]);
            } else {
                assert(v@[b] == before[b - 1]);
                assert(v@[a] == before[a - 1]);
            }
        }
        assert forall|y: i64| v@.contains(y) <==> before.contains(y) || y == x by {
            if v@.contains(y) {
                let k = choose|k: int| 0 <= k < v@.len() && v@[k] == y;
                if k < pos {
                    assert(before[k] == y);
                } else if k > pos {
                    assert(before[k - 1] == y);
                }
            }
            if before.contains(y) {
                let k = choose|k: int| 0 <= k < before.len() && before[k] == y;
                if k < pos {
                    assert(v@[k] == y);
                } else {
                    assert(v@[k + 1] == y);
                }
            }
            if y == x {
                assert(v@[pos as int] == x);
            }
        }
    }
}

/// A list with increasing ids has as many distinct ids as entries.
proof fn lemma_increasing_card<T>(s: Seq<(i64, T)>)
    requires
        ids_increasing(s),
    ensures
        id_set_of(s).finite(),
        id_set_of(s).len() == s.len(),
    decreases s.len(),
{
    if s.len() == 0 {
        assert(id_set_of(s) =~= Set::<i64>::empty());
    } else {
        let t = s.drop_last();
        assert(ids_increasing(t));
        lemma_increasing_card(t);
        assert(!id_set_of(t).contains(s.last().0)) by {
            if id_set_of(t).contains(s.last().0) {
                let i = choose|i: int| 0 <= i < t.len() && #[trigger] t[i].0 == s.last().0;
                assert(s[i].0 < s[s.len() - 1].0);
            }
        }
        assert(id_set_of(s) =~= id_set_of(t).insert(s.last().0)) by {
            assert forall|k: i64| #[trigger] id_set_of(s).contains(k) implies id_set_of(t).insert(s.last().0).contains(k) by {
                let i = choose|i: int| 0 <= i < s.len() && #[trigger] s[i].0 == k;
                if i < s.len() - 1 {
                    assert(t[i].0 == k);
                }
            }
            assert forall|k: i64| #[trigger] id_set_of(t).insert(s.last().0).contains(k) implies id_set_of(s).contains(k) by {
                if k == s.last().0 {
                    assert(s[s.len() - 1].0 == k);
                } else {
                    let i = choose|i: int| 0 <= i < t.len() && #[trigger] t[i].0 == k;
                    assert(s[i].0 == k);
                }
            }
        }
    }
}

/// Bucket ids all fit in an `i64` (true of every time stamp for a period
/// of at least one second).
fn bucket_and_day(dt: i64, duration_seconds: u32) -> (r: (i64, i64))
    requires
        duration_seconds >= 1,
    ensures
        r.0 == bucket_of_time(dt, duration_seconds),
        r.1 == day_of(dt),
{
    (compute_bucket_id(dt, duration_seconds), compute_bucket_id(dt, 86_400))
}

/// The multi-day bars of a listing of daily bars with time stamps `dts`:
/// one group per complete bucket, in bucket order.
pub fn plan_day_groups(dts: &[i64], duration_seconds: u32) -> (groups: Vec<DayGroup>)
    requires
        duration_seconds >= 86_400,
    ensures
        forall|a: int, b: int| 0 <= a < b < groups@.len() ==> #[trigger] groups@[a].bucket_id < #[trigger] groups@[b].bucket_id,
        forall|g: int| 0 <= g < groups@.len() ==> {
            let grp = #[trigger] groups@[g];
            &&& ids_increasing(grp.members@)
            &&& keyed(grp.members@) == keyed(bucket_rows(dts@, duration_seconds, grp.bucket_id as int))
            &&& grp.members@.len() == duration_seconds / 86_400
        },
        forall|i: int| 0 <= i < dts@.len() ==> ((exists|g: int| 0 <= g < groups@.len() && #[trigger] groups@[g].bucket_id == bucket_of_time(dts@[i], duration_seconds))
            <==> bucket_complete(dts@, duration_seconds, bucket_of_time(dts@[i], duration_seconds), (duration_seconds / 86_400) as nat)),
{
    let days: usize = (duration_seconds / 86_400) as usize;
    let n = dts.len();
    // the distinct buckets, in order
    let mut buckets: Vec<i64> = Vec::new();
    let mut i: usize = 0;
    while i < n
        invariant
            n == dts@.len(),
            duration_seconds >= 86_400,
            i <= n,
            strictly_increasing(buckets@),
            forall|y: i64| buckets@.contains(y) <==> exists|k: int| 0 <= k < i && bucket_of_time(#[trigger] dts@[k], duration_seconds) == y,
        decreases n - i,
    {
        let (b, _) = bucket_and_day(dts[i], duration_seconds);
        let ghost old_b = buckets@;
        insert_unique_sorted(&mut buckets, b);
        proof {
            assert forall|y: i64| buckets@.contains(y) <==> exists|k: int| 0 <= k < i + 1 && bucket_of_time(#[trigger] dts@[k], duration_seconds) == y by {
                if buckets@.contains(y) && !old_b.contains(y) {
                    assert(bucket_of_time(dts@[i as int], duration_seconds) == y);
                }
                if exists|k: int| 0 <= k < i + 1 && bucket_of_time(#[trigger] dts@[k], duration_seconds) == y {
                    let k = choose|k: int| 0 <= k < i + 1 && bucket_of_time(#[trigger] dts@[k], duration_seconds) == y;
                    if k < i {
                        assert(old_b.contains(y));
                    }
                }
            }
        }
        i = i + 1;
    }
    let mut groups: Vec<DayGroup> = Vec::new();
    let mut j: usize = 0;
    while j < buckets.len()
        invariant
            n == dts@.len(),
            duration_seconds >= 86_400,
            days == duration_seconds / 86_400,
            j <= buckets@.len(),
            strictly_increasing(buckets@),
            forall|y: i64| buckets@.contains(y) <==> exists|k: int| 0 <= k < n && bucket_of_time(#[trigger] dts@[k], duration_seconds) == y,
            forall|a: int, b: int| 0 <= a < b < groups@.len() ==> #[trigger] groups@[a].bucket_id < #[trigger] groups@[b].bucket_id,
            forall|g: int| 0 <= g < groups@.len() ==> exists|k: int| 0 <= k < j && #[trigger] groups@[g].bucket_id == buckets@[k],
            forall|g: int| 0 <= g < groups@.len() ==> {
                let grp = #[trigger] groups@[g];
                &&& ids_increasing(grp.members@)
                &&& keyed(grp.members@) == keyed(bucket_rows(dts@, duration_seconds, grp.bucket_id as int))
                &&& grp.members@.len() == days
            },
            forall|k: int| 0 <= k < j ==> ((exists|g: int| 0 <= g < groups@.len() && #[trigger] groups@[g].bucket_id == buckets@[k])
                <==> bucket_complete(dts@, duration_seconds, #[trigger] buckets@[k] as int, days as nat)),
        decreases buckets@.len() - j,
    {
        let b = buckets[j];
        let mut rows: Vec<(i64, usize)> = Vec::new();
        let mut i: usize = 0;
        while i < n
            invariant
                n == dts@.len(),
                duration_seconds >= 86_400,
                i <= n,
                rows@ == bucket_rows(dts@.take(i as int), duration_seconds, b as int),
            decreases n - i,
        {
            let (bi, di) = bucket_and_day(dts[i], duration_seconds);
            proof {
                assert(dts@.take(i + 1).drop_last() =~= dts@.take(i as int));
                assert(dts@.take(i + 1).last() == dts@[i as int]);
            }
            if bi == b {
                rows.push((di, i));
            }
            i = i + 1;
        }
        proof {
            assert(dts@.take(n as int) =~= dts@);
        }
        let ghost rv = rows@;
        let members = index_by_id(rows);
        proof {
            lemma_keyed_dom(members@);
            lemma_keyed_dom(rv);
            lemma_increasing_card(members@);
            assert(id_set_of(members@) == id_set_of(rv));
            assert(bucket_complete(dts@, duration_seconds, b as int, days as nat) <==> members@.len() == days);
        }
        let ghost old_groups = groups@;
        if members.len() == days {
            groups.push(DayGroup { bucket_id: b, members });
            proof {
                assert forall|a: int, c: int| 0 <= a < c < groups@.len() implies #[trigger] groups@[a].bucket_id < #[trigger] groups@[c].bucket_id by {
                    if c == groups@.len() - 1 {
                        let k = choose|k: int| 0 <= k < j && #[trigger] old_groups[a].bucket_id == buckets@[k];
                        assert(buckets@[k] < buckets@[j as int]);
                    }
                }
            }
        }
        proof {
            assert forall|g: int| 0 <= g < groups@.len() implies exists|k: int| 0 <= k < j + 1 && #[trigger] groups@[g].bucket_id == buckets@[k] by {
                if g < old_groups.len() {
                    let k = choose|k: int| 0 <= k < j && #[trigger] old_groups[g].bucket_id == buckets@[k];
                    assert(groups@[g] == old_groups[g]);
                } else {
                    assert(groups@[g].bucket_id == buckets@[j as int]);
                }
            }
            assert forall|k: int| 0 <= k < j + 1 implies ((exists|g: int| 0 <= g < groups@.len() && #[trigger] groups@[g].bucket_id == buckets@[k])
                <==> bucket_complete(dts@, duration_seconds, #[trigger] buckets@[k] as int, days as nat)) by {
                if k < j {
                    if exists|g: int| 0 <= g < groups@.len() && #[trigger] groups@[g].bucket_id == buckets@[k] {
                        let g = choose|g: int| 0 <= g < groups@.len() && #[trigger] groups@[g].bucket_id == buckets@[k];
                        if g == old_groups.len() {
                            assert(buckets@[k] < buckets@[j as int]);
                        } else {
                            assert(groups@[g] == old_groups[g]);
                        }
                    }
                    if exists|g: int| 0 <= g < old_groups.len() && #[trigger] old_groups[g].bucket_id == buckets@[k] {
                        let g = choose|g: int| 0 <= g < old_groups.len() && #[trigger] old_groups[g].bucket_id == buckets@[k];
                        assert(groups@[g] == old_groups[g]);
                    }
                } else {
                    if exists|g: int| 0 <= g < groups@.len() && #[trigger] groups@[g].bucket_id == buckets@[k] {
                        let g = choose|g: int| 0 <= g < groups@.len() && #[trigger] groups@[g].bucket_id == buckets@[k];
                        if g < old_groups.len() {
                            assert(groups@[g] == old_groups[g]);
                            let kk = choose|kk: int| 0 <= kk < j && #[trigger] old_groups[g].bucket_id == buckets@[kk];
                            assert(buckets@[kk] < buckets@[j as int]);
                        }
                    }
                    if members@.len() == days {
                        assert(groups@[old_groups.len() as int].bucket_id == buckets@[k]);
                    }
                }
            }
        }
        j = j + 1;
    }
    proof {
        assert forall|i: int| 0 <= i < dts@.len() implies ((exists|g: int| 0 <= g < groups@.len() && #[trigger] groups@[g].bucket_id == bucket_of_time(dts@[i], duration_seconds))
            <==> bucket_complete(dts@, duration_seconds, bucket_of_time(dts@[i], duration_seconds), days as nat)) by {
            let y = bucket_of_time(dts@[i], duration_seconds);
            assert(i64::MIN <= y <= i64::MAX) by {
                let x = dts@[i] as int;
                let dd = duration_seconds * 1_000_000_000;
                assert(i64::MIN <= x / dd <= i64::MAX) by (nonlinear_arith)
                    requires
                        dd >= 1,
                        i64::MIN <= x <= i64::MAX,
                {
                    if x >= 0 {
                        assert(x / dd <= x);
                        assert(x / dd >= 0);
                    } else {
                        assert(x / dd >= x);
                        assert(x / dd < 0);
                    }
                }
            }
            assert(buckets@.contains(y as i64));
            let k = choose|k: int| 0 <= k < buckets@.len() && buckets@[k] == y as i64;
            assert(buckets@[k] as int == y);
        }
    }
    groups
}

} // verus!
