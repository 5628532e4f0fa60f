//! Rows of a kline series keyed by bar id.
//!
//! The cache keeps at most one row per id and hands rows out ordered by id;
//! when two rows share an id, the one written later wins. A row is an id
//! paired with whatever is stored under it.

use vstd::prelude::*;

verus! {

/// What a list of rows stores: each id mapped to the last row written under it.
pub open spec fn keyed<T>(s: Seq<(i64, T)>) -> Map<i64, T>
    decreases s.len(),
{
    if s.len() == 0 {
        Map::empty()
    } else {
        keyed(s.drop_last()).insert(s.last().0, s.last().1)
    }
}

/// Ids strictly increase along `s`, so no id occurs twice.
pub open spec fn ids_increasing<T>(s: Seq<(i64, T)>) -> bool {
    forall|i: int, j: int| 0 <= i < j < s.len() ==> #[trigger] s[i].0 < #[trigger] s[j].0
}

/// The ids that occur in `s`.
pub open spec fn id_set_of<T>(s: Seq<(i64, T)>) -> Set<i64> {
    Set::new(|k: i64| exists|i: int| 0 <= i < s.len() && #[trigger] s[i].0 == k)
}

/// The ids of `keyed(s)` are the ids that occur in `s`.
pub proof fn lemma_keyed_dom<T>(s: Seq<(i64, T)>)
    ensures
        keyed(s).dom() == id_set_of(s),
    decreases s.len(),
{
    if s.len() > 0 {
        let t = s.drop_last();
        lemma_keyed_dom(t);
        assert forall|k: i64| #[trigger] id_set_of(s).contains(k) implies keyed(s).dom().contains(k) by {
            let i = choose|i: int| 0 <= i < s.len() && #[trigger] s[i].0 == k;
            if i < s.len() - 1 {
                assert(t[i].0 == k);
                assert(id_set_of(t).contains(k));
            }
        }
        assert forall|k: i64| #[trigger] keyed(s).dom().contains(k) implies id_set_of(s).contains(k) by {
            if k == s.last().0 {
                assert(s[s.len() - 1].0 == k);
            } else {
                assert(id_set_of(t).contains(k));
                let i = choose|i: int| 0 <= i < t.len() && #[trigger] t[i].0 == k;
                assert(s[i].0 == k);
            }
        }
        assert(keyed(s).dom() =~= id_set_of(s));
    } else {
        assert(keyed(s).dom() =~= id_set_of(s));
    }
}

/// In a list where ids increase, each row is what its id maps to.
pub proof fn lemma_keyed_increasing<T>(s: Seq<(i64, T)>)
    requires
        ids_increasing(s),
    ensures
        keyed(s).dom() == id_set_of(s),
        forall|i: int| 0 <= i < s.len() ==> #[trigger] keyed(s)[s[i].0] == s[i].1,
    decreases s.len(),
{
    lemma_keyed_dom(s);
    if s.len() > 0 {
        let t = s.drop_last();
        assert(ids_increasing(t));
        lemma_keyed_increasing(t);
        assert forall|i: int| 0 <= i < s.len() implies #[trigger] keyed(s)[s[i].0] == s[i].1 by {
            if i < s.len() - 1 {
                assert(s[i].0 < s[s.len() - 1].0);
                assert(t[i] == s[i]);
            }
        }
    }
}

/// Two lists with increasing ids that store the same map are equal.
pub proof fn lemma_increasing_unique<T>(a: Seq<(i64, T)>, b: Seq<(i64, T)>)
    requires
        ids_increasing(a),
        ids_increasing(b),
        keyed(a) == keyed(b),
    ensures
        a == b,
    decreases a.len() + b.len(),
{
    lemma_keyed_increasing(a);
    lemma_keyed_increasing(b);
    if a.len() == 0 || b.len() == 0 {
        if a.len() > 0 {
            assert(id_set_of(a).contains(a[0].0));
        }
        if b.len() > 0 {
            assert(id_set_of(b).contains(b[0].0));
        }
        assert(a =~= b);
    } else {
        let la = a.last();
        let lb = b.last();
        assert(id_set_of(a).contains(la.0)) by {
            assert(a[a.len() - 1].0 == la.0);
        }
        assert(id_set_of(b).contains(lb.0)) by {
            assert(b[b.len() - 1].0 == lb.0);
        }
        assert(id_set_of(b).contains(la.0));
        assert(id_set_of(a).contains(lb.0));
        let ib = choose|i: int| 0 <= i < b.len() && #[trigger] b[i].0 == la.0;
        let ia = choose|i: int| 0 <= i < a.len() && #[trigger] a[i].0 == lb.0;
        if ib < b.len() - 1 {
            assert(b[ib].0 < b[b.len() - 1].0);
            assert(a[ia].0 <= a[a.len() - 1].0);
        }
        if ia < a.len() - 1 {
            assert(a[ia].0 < a[a.len() - 1].0);
        }
        assert(la.0 == lb.0);
        assert(la.1 == keyed(a)[la.0]);
        assert(lb.1 == keyed(b)[lb.0]);
        assert(la == lb);
        let ta = a.drop_last();
        let tb = b.drop_last();
        assert(ids_increasing(ta));
        assert(ids_increasing(tb));
        lemma_keyed_increasing(ta);
        lemma_keyed_increasing(tb);
        assert(!id_set_of(ta).contains(la.0)) by {
            if id_set_of(ta).contains(la.0) {
                let i = choose|i: int| 0 <= i < ta.len() && #[trigger] ta[i].0 == la.0;
                assert(a[i].0 < a[a.len() - 1].0);
            }
        }
        assert(!id_set_of(tb).contains(la.0)) by {
            if id_set_of(tb).contains(la.0) {
                let i = choose|i: int| 0 <= i < tb.len() && #[trigger] tb[i].0 == la.0;
                assert(b[i].0 < b[b.len() - 1].0);
            }
        }
        assert(keyed(ta) =~= keyed(a).remove(la.0));
        assert(keyed(tb) =~= keyed(b).remove(la.0));
        lemma_increasing_unique(ta, tb);
        assert(a =~= ta.push(la));
        assert(b =~= tb.push(lb));
    }
}

/// Rows written after `a` override `a`'s rows of the same id.
pub proof fn lemma_keyed_concat<T>(a: Seq<(i64, T)>, b: Seq<(i64, T)>)
    ensures
        keyed(a + b) == keyed(a).union_prefer_right(keyed(b)),
    decreases b.len(),
{
    if b.len() == 0 {
        assert(a + b =~= a);
        assert(keyed(a).union_prefer_right(keyed(b)) =~= keyed(a));
    } else {
        lemma_keyed_concat(a, b.drop_last());
        assert((a + b).drop_last() =~= a + b.drop_last());
        assert((a + b).last() == b.last());
        assert(keyed(a + b) =~= keyed(a).union_prefer_right(keyed(b)));
    }
}

/// Inserting a row with a new id at its place keeps the ids increasing and
/// adds that row to the stored map.
proof fn lemma_insert_sorted<T>(s: Seq<(i64, T)>, pos: int, x: (i64, T))
    requires
        ids_increasing(s),
        0 <= pos <= s.len(),
        forall|i: int| 0 <= i < pos ==> #[trigger] s[i].0 < x.0,
        forall|i: int| pos <= i < s.len() ==> #[trigger] s[i].0 > x.0,
    ensures
        ids_increasing(s.insert(pos, x)),
        keyed(s.insert(pos, x)) == keyed(s).insert(x.0, x.1),
{
    let t = s.insert(pos, x);
    assert(ids_increasing(t)) by {
        assert forall|i: int, j: int| 0 <= i < j < t.len() implies #[trigger] t[i].0
            < #[trigger] t[j].0 by {
            if j < pos {
            } else if j == pos {
            } else if i < pos {
                assert(t[j] == s[j - 1]);
            } else if i == pos {
                assert(t[j] == s[j - 1]);
            } else {
                assert(t[j] == s[j - 1]);
                assert(t[i] == s[i - 1]);
            }
        }
    }
    lemma_keyed_increasing(s);
    lemma_keyed_increasing(t);
    assert(id_set_of(t) =~= id_set_of(s).insert(x.0)) by {
        assert forall|k: i64| #[trigger] id_set_of(t).contains(k) implies id_set_of(s).insert(
            x.0,
        ).contains(k) by {
            let i = choose|i: int| 0 <= i < t.len() && #[trigger] t[i].0 == k;
            if i < pos {
                assert(s[i].0 == k);
            } else if i > pos {
                assert(s[i - 1].0 == k);
            }
        }
        assert forall|k: i64| #[trigger] id_set_of(s).insert(x.0).contains(k) implies id_set_of(
            t,
        ).contains(k) by {
            if k == x.0 {
                assert(t[pos].0 == k);
            } else {
                let i = choose|i: int| 0 <= i < s.len() && #[trigger] s[i].0 == k;
                if i < pos {
                    assert(t[i].0 == k);
                } else {
                    assert(t[i + 1].0 == k);
                }
            }
        }
    }
    assert forall|k: i64| #[trigger] keyed(t).dom().contains(k) implies keyed(t)[k] == keyed(
        s,
    ).insert(x.0, x.1)[k] by {
        let i = choose|i: int| 0 <= i < t.len() && #[trigger] t[i].0 == k;
        if i < pos {
            assert(t[i] == s[i]);
        } else if i > pos {
            assert(t[i] == s[i - 1]);
        }
    }
    assert(keyed(t) =~= keyed(s).insert(x.0, x.1));
}

/// One row per id, ordered by id; of rows sharing an id the last one is kept.
pub fn index_by_id<T>(rows: Vec<(i64, T)>) -> (out: Vec<(i64, T)>)
    ensures
        ids_increasing(out@),
        keyed(out@) == keyed(rows@),
{
    let ghost s = rows@;
    let mut rows = rows;
    let mut out: Vec<(i64, T)> = Vec::new();
    proof {
        assert(s.skip(s.len() as int) =~= Seq::<(i64, T)>::empty());
        assert(keyed(out@) =~= keyed(s.skip(s.len() as int)));
    }
    while rows.len() > 0
        invariant
            rows@ == s.take(rows@.len() as int),
            rows@.len() <= s.len(),
            ids_increasing(out@),
            keyed(out@) == keyed(s.skip(rows@.len() as int)),
        decreases rows@.len(),
    {
        let ghost r = rows@.len() as int;
        let ghost suf = s.skip(r);
        let ghost before = rows@;
        let popped = rows.pop();
        proof {
            assert(before == s.take(r));
            assert(rows@ == before.subrange(0, r - 1));
            assert(rows@ =~= s.take(r - 1));
        }
        let (id, v) = match popped {
            Some(row) => row,
            None => { return out; },
        };
        proof {
            assert(s[r - 1] == (id, v));
            assert(s.skip(r - 1) =~= seq![(id, v)] + suf);
            lemma_keyed_concat(seq![(id, v)], suf);
            assert(keyed(seq![(id, v)]) =~= Map::<i64, T>::empty().insert(id, v)) by {
                let one = seq![(id, v)];
                assert(one.len() == 1);
                assert(one.last() == (id, v));
                assert(one.drop_last() =~= Seq::<(i64, T)>::empty());
                assert(keyed(one.drop_last()) =~= Map::<i64, T>::empty());
            }
            lemma_keyed_increasing(out@);
        }
        let mut pos: usize = 0;
        while pos < out.len() && out[pos].0 < id
            invariant
                pos <= out@.len(),
                forall|i: int| 0 <= i < pos ==> #[trigger] out@[i].0 < id,
            decreases out@.len() - pos,
        {
            pos = pos + 1;
        }
        if pos < out.len() && out[pos].0 == id {
            proof {
                assert(keyed(out@).dom().contains(id)) by {
                    assert(id_set_of(out@).contains(id)) by {
                        assert(out@[pos as int].0 == id);
                    }
                }
                assert(keyed(s.skip(r - 1)) =~= keyed(suf));
            }
        } else {
            proof {
                assert(forall|i: int| pos <= i < out@.len() ==> #[trigger] out@[i].0 > id) by {
                    assert forall|i: int| pos <= i < out@.len() implies #[trigger] out@[i].0 > id by {
                        if i > pos {
                            assert(out@[pos as int].0 < out@[i].0);
                        }
                    }
                }
                assert(!keyed(out@).dom().contains(id)) by {
                    if id_set_of(out@).contains(id) {
                        let i = choose|i: int| 0 <= i < out@.len() && #[trigger] out@[i].0 == id;
                        assert(i < pos || i >= pos);
                    }
                }
                lemma_insert_sorted(out@, pos as int, (id, v));
                assert(keyed(s.skip(r - 1)) =~= keyed(suf).insert(id, v));
            }
            out.insert(pos, (id, v));
        }
    }
    proof {
        assert(s.skip(0) =~= s);
    }
    out
}

/// What a list of rows stores when the first row of each id wins.
pub open spec fn keyed_first<T>(s: Seq<(i64, T)>) -> Map<i64, T>
    decreases s.len(),
{
    if s.len() == 0 {
        Map::empty()
    } else {
        keyed_first(s.drop_first()).insert(s[0].0, s[0].1)
    }
}

/// One row per id, ordered by id; of rows sharing an id the first one is kept.
pub fn index_by_id_first<T>(rows: Vec<(i64, T)>) -> (out: Vec<(i64, T)>)
    ensures
        ids_increasing(out@),
        keyed(out@) == keyed_first(rows@),
{
    let ghost s = rows@;
    let mut rows = rows;
    let mut out: Vec<(i64, T)> = Vec::new();
    proof {
        assert(s.skip(s.len() as int) =~= Seq::<(i64, T)>::empty());
        assert(keyed(out@) =~= keyed_first(s.skip(s.len() as int)));
    }
    while rows.len() > 0
        invariant
            rows@ == s.take(rows@.len() as int),
            rows@.len() <= s.len(),
            ids_increasing(out@),
            keyed(out@) == keyed_first(s.skip(rows@.len() as int)),
        decreases rows@.len(),
    {
        let ghost r = rows@.len() as int;
        let ghost suf = s.skip(r);
        let ghost before = rows@;
        let popped = rows.pop();
        proof {
            assert(before == s.take(r));
            assert(rows@ == before.subrange(0, r - 1));
            assert(rows@ =~= s.take(r - 1));
        }
        let (id, v) = match popped {
            Some(row) => row,
            None => { return out; },
        };
        proof {
            assert(s[r - 1] == (id, v));
            assert(s.skip(r - 1).drop_first() =~= suf);
            assert(s.skip(r - 1)[0] == (id, v));
            assert(keyed_first(s.skip(r - 1)) == keyed_first(suf).insert(id, v));
            lemma_keyed_increasing(out@);
        }
        let mut pos: usize = 0;
        while pos < out.len() && out[pos].0 < id
            invariant
                pos <= out@.len(),
                forall|i: int| 0 <= i < pos ==> #[trigger] out@[i].0 < id,
            decreases out@.len() - pos,
        {
            pos = pos + 1;
        }
        if pos < out.len() && out[pos].0 == id {
            let ghost prev = out@;
            let _replaced = out.remove(pos);
            let ghost mid = out@;
            proof {
                assert(mid =~= prev.remove(pos as int));
                assert(ids_increasing(mid)) by {
                    assert forall|a: int, b: int| 0 <= a < b < mid.len() implies #[trigger] mid[a].0 < #[trigger] mid[b].0 by {
                        let aa = if a < pos { a } else { a + 1 };
                        let bb = if b < pos { b } else { b + 1 };
                        assert(mid[a] == prev[aa]);
                        assert(mid[b] == prev[bb]);
                    }
                }
                assert forall|i: int| 0 <= i < pos implies #[trigger] mid[i].0 < id by {
                    assert(mid[i] == prev[i]);
                }
                assert forall|i: int| pos <= i < mid.len() implies #[trigger] mid[i].0 > id by {
                    assert(mid[i] == prev[i + 1]);
                    assert(prev[pos as int].0 < prev[i + 1].0);
                }
                lemma_insert_sorted(mid, pos as int, (id, v));
                lemma_keyed_increasing(prev);
                lemma_keyed_increasing(mid);
                assert(mid.insert(pos as int, (id, v)) =~= prev.update(pos as int, (id, v)));
                assert(keyed(mid) =~= keyed(prev).remove(id)) by {
                    assert forall|k: i64| #[trigger] keyed(mid).dom().contains(k) <==> keyed(prev).remove(id).dom().contains(k) by {
                        if keyed(mid).dom().contains(k) {
                            assert(id_set_of(mid).contains(k));
                            let i = choose|i: int| 0 <= i < mid.len() && #[trigger] mid[i].0 == k;
                            assert(k != id);
                            let ii = if i < pos { i } else { i + 1 };
                            assert(prev[ii].0 == k);
                            assert(id_set_of(prev).contains(k));
                        }
                        if keyed(prev).remove(id).dom().contains(k) {
                            assert(id_set_of(prev).contains(k));
                            let i = choose|i: int| 0 <= i < prev.len() && #[trigger] prev[i].0 == k;
                            assert(i != pos);
                            let ii = if i < pos { i } else { i - 1 };
                            assert(mid[ii].0 == k);
                            assert(id_set_of(mid).contains(k));
                        }
                    }
                    assert forall|k: i64| #[trigger] keyed(mid).dom().contains(k) implies keyed(mid)[k] == keyed(prev).remove(id)[k] by {
                        let i = choose|i: int| 0 <= i < mid.len() && #[trigger] mid[i].0 == k;
                        let ii = if i < pos { i } else { i + 1 };
                        assert(mid[i] == prev[ii]);
                    }
                }
                assert(keyed(mid).insert(id, v) =~= keyed(prev).insert(id, v));
            }
            out.insert(pos, (id, v));
        } else {
            proof {
                assert(forall|i: int| pos <= i < out@.len() ==> #[trigger] out@[i].0 > id) by {
                    assert forall|i: int| pos <= i < out@.len() implies #[trigger] out@[i].0 > id by {
                        if i > pos {
                            assert(out@[pos as int].0 < out@[i].0);
                        }
                    }
                }
                lemma_insert_sorted(out@, pos as int, (id, v));
            }
            out.insert(pos, (id, v));
        }
    }
    proof {
        assert(s.skip(0) =~= s);
    }
    out
}

/// `rows` with `extra` written after them, indexed by id.
pub fn overlay_rows<T>(rows: Vec<(i64, T)>, extra: Vec<(i64, T)>) -> (out: Vec<(i64, T)>)
    ensures
        ids_increasing(out@),
        keyed(out@) == keyed(rows@).union_prefer_right(keyed(extra@)),
{
    let mut all = rows;
    let mut more = extra;
    let ghost a = all@;
    let ghost b = more@;
    all.append(&mut more);
    proof {
        lemma_keyed_concat(a, b);
    }
    index_by_id(all)
}

/// `rows` with the still-forming bar `pending` written over them when its
/// id lies in the window `[start_id, end_id)`; otherwise `rows` unchanged.
pub fn overlay_in_window<T>(rows: Vec<(i64, T)>, pending: Option<(i64, T)>, start_id: i64, end_id: i64) -> (out: Vec<(i64, T)>)
    ensures
        match pending {
            Some(p) => if start_id <= p.0 && p.0 < end_id {
                ids_increasing(out@) && keyed(out@) == keyed(rows@).insert(p.0, p.1)
            } else {
                out@ == rows@
            },
            None => out@ == rows@,
        },
{
    match pending {
        Some(p) => {
            if start_id <= p.0 && p.0 < end_id {
                let ghost pv = p;
                let mut extra: Vec<(i64, T)> = Vec::new();
                extra.push(p);
                proof {
                    assert(extra@.len() == 1);
                    assert(extra@.last() == pv);
                    assert(extra@.drop_last() =~= Seq::<(i64, T)>::empty());
                    assert(keyed(extra@.drop_last()) == Map::<i64, T>::empty());
                    assert(keyed(extra@) == keyed(extra@.drop_last()).insert(pv.0, pv.1));
                    assert(keyed(rows@).union_prefer_right(keyed(extra@)) =~= keyed(rows@).insert(pv.0, pv.1));
                }
                overlay_rows(rows, extra)
            } else {
                rows
            }
        },
        None => rows,
    }
}

/// The last `count` items of `rows` (all of them when there are fewer).
pub fn tail_rows<T>(rows: Vec<T>, count: usize) -> (out: Vec<T>)
    ensures
        out@ == rows@.subrange(
            if rows@.len() > count { rows@.len() - count } else { 0 },
            rows@.len() as int,
        ),
{
    let mut rows = rows;
    let skip = rows.len().saturating_sub(count);
    rows.split_off(skip)
}

/// The items of the lists of `segs`, one list after the other.
pub open spec fn concat_all<T>(segs: Seq<Seq<T>>) -> Seq<T>
    decreases segs.len(),
{
    if segs.len() == 0 {
        Seq::empty()
    } else {
        concat_all(segs.drop_last()) + segs.last()
    }
}

/// The contents of each vector of `v`.
pub open spec fn views<T>(v: Seq<Vec<T>>) -> Seq<Seq<T>> {
    Seq::new(v.len(), |i: int| v[i]@)
}

/// Each id of `s` is one more than the id before it.
pub open spec fn consecutive_ids<T>(s: Seq<(i64, T)>) -> bool {
    forall|i: int, j: int| 0 <= i && j == i + 1 && j < s.len() ==> #[trigger] s[j].0 == #[trigger] s[i].0 + 1
}

/// `segs` are maximal runs of consecutive ids: each run is non-empty and
/// consecutive, and a later run starts more than one id after an earlier
/// run ends.
pub open spec fn separated_runs<T>(segs: Seq<Seq<(i64, T)>>) -> bool {
    &&& forall|j: int| 0 <= j < segs.len() ==> #[trigger] segs[j].len() > 0 && consecutive_ids(segs[j])
    &&& forall|i: int, j: int| 0 <= i < j < segs.len() ==> #[trigger] segs[i].last().0 + 1 < #[trigger] segs[j][0].0
}

proof fn lemma_concat_all_prepend<T>(x: Seq<T>, segs: Seq<Seq<T>>)
    ensures
        concat_all(seq![x] + segs) == x + concat_all(segs),
    decreases segs.len(),
{
    if segs.len() == 0 {
        let one = seq![x] + segs;
        assert(one =~= seq![x]);
        assert(one.len() == 1);
        assert(one.last() == x);
        assert(one.drop_last() =~= Seq::<Seq<T>>::empty());
        assert(concat_all(one.drop_last()) =~= Seq::<T>::empty());
        assert(concat_all(one) =~= x + concat_all(segs));
    } else {
        lemma_concat_all_prepend(x, segs.drop_last());
        assert((seq![x] + segs).drop_last() =~= seq![x] + segs.drop_last());
        assert(concat_all(seq![x] + segs) =~= x + concat_all(segs));
    }
}

/// The rows, one per id (the last written wins) and ordered by id, cut into
/// maximal runs of consecutive ids.
pub fn split_contiguous<T>(rows: Vec<(i64, T)>) -> (segs: Vec<Vec<(i64, T)>>)
    ensures
        separated_runs(views(segs@)),
        ids_increasing(concat_all(views(segs@))),
        keyed(concat_all(views(segs@))) == keyed(rows@),
{
    let mut sorted = index_by_id(rows);
    let ghost srt = sorted@;
    let mut rev: Vec<Vec<(i64, T)>> = Vec::new();
    let ghost mut found: Seq<Seq<(i64, T)>> = Seq::empty();
    proof {
        assert(srt.skip(srt.len() as int) =~= concat_all(found));
    }
    while sorted.len() > 0
        invariant
            ids_increasing(srt),
            sorted@ == srt.take(sorted@.len() as int),
            sorted@.len() <= srt.len(),
            concat_all(found) == srt.skip(sorted@.len() as int),
            separated_runs(found),
            found.len() > 0 && sorted@.len() > 0 ==> srt[sorted@.len() - 1].0 + 1 < found[0][0].0,
            rev@.len() == found.len(),
            forall|i: int| 0 <= i < rev@.len() ==> #[trigger] rev@[i]@ == found[found.len() - 1 - i],
        decreases sorted@.len(),
    {
        let len = sorted.len();
        let mut b = len - 1;
        while b > 0 && sorted[b - 1].0 < i64::MAX && sorted[b - 1].0 + 1 == sorted[b].0
            invariant
                b < len,
                len == sorted@.len(),
                sorted@ == srt.take(len as int),
                ids_increasing(srt),
                len <= srt.len(),
                forall|i: int, j: int| b <= i && j == i + 1 && j < len ==> #[trigger] srt[j].0 == #[trigger] srt[i].0 + 1,
            decreases b,
        {
            proof {
                assert(srt[b - 1].0 < srt[b as int].0);
            }
            b = b - 1;
        }
        let ghost before = sorted@;
        let ghost old_found = found;
        let seg = sorted.split_off(b);
        proof {
            let sg = seg@;
            assert(sg =~= srt.subrange(b as int, len as int));
            assert(sg.len() > 0);
            assert(consecutive_ids(sg)) by {
                assert forall|i: int, j: int| 0 <= i && j == i + 1 && j < sg.len() implies #[trigger] sg[j].0 == #[trigger] sg[i].0 + 1 by {
                    assert(sg[j] == srt[b + j]);
                    assert(sg[i] == srt[b + i]);
                }
            }
            if found.len() > 0 {
                assert(sg.last().0 + 1 < found[0][0].0) by {
                    assert(sg.last() == srt[len - 1]);
                }
            }
            let nf = seq![sg] + found;
            lemma_prepend_run(sg, found);
            lemma_concat_all_prepend(sg, found);
            assert(srt.skip(b as int) =~= sg + srt.skip(len as int));
            assert(sorted@ =~= srt.take(b as int));
            if b > 0 {
                assert(srt[b - 1].0 < srt[b as int].0);
                assert(srt[b - 1].0 + 1 != srt[b as int].0);
                assert(sg[0] == srt[b as int]);
            }
            found = nf;
        }
        rev.push(seg);
        proof {
            assert forall|i: int| 0 <= i < rev@.len() implies #[trigger] rev@[i]@ == found[found.len() - 1 - i] by {
                if i < rev@.len() - 1 {
                    assert(found[found.len() - 1 - i] == old_found[old_found.len() - 1 - i]);
                }
            }
        }
    }
    proof {
        assert(srt.skip(0) =~= srt);
    }
    let mut segs: Vec<Vec<(i64, T)>> = Vec::new();
    while rev.len() > 0
        invariant
            rev@.len() + segs@.len() == found.len(),
            forall|i: int| 0 <= i < rev@.len() ==> #[trigger] rev@[i]@ == found[found.len() - 1 - i],
            forall|i: int| 0 <= i < segs@.len() ==> #[trigger] segs@[i]@ == found[i],
        decreases rev@.len(),
    {
        let ghost k = segs@.len() as int;
        let ghost before = rev@;
        let popped = rev.pop();
        match popped {
            Some(seg) => {
                proof {
                    assert(seg == before[before.len() - 1]);
                    assert(seg@ == found[k]);
                }
                segs.push(seg);
            },
            None => {},
        }
    }
    proof {
        assert(views(segs@) =~= found);
    }
    segs
}

proof fn lemma_prepend_run<T>(sg: Seq<(i64, T)>, found: Seq<Seq<(i64, T)>>)
    requires
        sg.len() > 0,
        consecutive_ids(sg),
        separated_runs(found),
        found.len() > 0 ==> sg.last().0 + 1 < found[0][0].0,
    ensures
        separated_runs(seq![sg] + found),
{
    let nf = seq![sg] + found;
    assert forall|j: int| 0 <= j < nf.len() implies #[trigger] nf[j].len() > 0 && consecutive_ids(nf[j]) by {
        if j > 0 {
            assert(nf[j] == found[j - 1]);
        }
    }
    assert forall|i: int, j: int| 0 <= i < j < nf.len() implies #[trigger] nf[i].last().0 + 1 < #[trigger] nf[j][0].0 by {
        if i == 0 {
            assert(nf[j] == found[j - 1]);
            if j > 1 {
                let f0 = found[0];
                assert(f0.len() > 0 && consecutive_ids(f0));
                lemma_consecutive_ge_first(f0, f0.len() - 1);
                assert(f0.last().0 + 1 < found[j - 1][0].0);
            }
        } else {
            assert(nf[i] == found[i - 1]);
            assert(nf[j] == found[j - 1]);
        }
    }
}

proof fn lemma_consecutive_ge_first<T>(s: Seq<(i64, T)>, k: int)
    requires
        consecutive_ids(s),
        0 <= k < s.len(),
    ensures
        s[0].0 <= s[k].0,
    decreases k,
{
    if k > 0 {
        lemma_consecutive_ge_first(s, k - 1);
        assert(s[k].0 == s[k - 1].0 + 1);
    }
}

} // verus!
