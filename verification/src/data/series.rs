//! The state behind a kline series handle: symbol, period and a ring
//! buffer of bars keyed by id, whose newest bar may still be forming.

use vstd::prelude::*;

use crate::data::buffer::{KlineRingBuffer, last_n, newest_is_forming, payloads, pushed};
use crate::data::types::Duration;

verus! {

/// The contents after pushing each of `xs` in turn onto `s` in a buffer of
/// capacity `cap`.
pub open spec fn pushed_all<T>(s: Seq<T>, cap: nat, xs: Seq<T>) -> Seq<T>
    decreases xs.len(),
{
    if xs.len() == 0 {
        s
    } else {
        pushed(pushed_all(s, cap, xs.drop_last()), cap, xs.last())
    }
}

/// Pushing into an empty buffer no more items than it holds keeps them all.
pub proof fn lemma_pushed_all_fits<T>(cap: nat, xs: Seq<T>)
    requires
        xs.len() <= cap,
    ensures
        pushed_all(Seq::<T>::empty(), cap, xs) == xs,
    decreases xs.len(),
{
    if xs.len() > 0 {
        lemma_pushed_all_fits(cap, xs.drop_last());
        assert(xs.drop_last().push(xs.last()) =~= xs);
    }
}

/// Symbol, period and bars of one kline series.
#[derive(Debug)]
pub struct SeriesState<T> {
    symbol: String,
    duration: Duration,
    buffer: KlineRingBuffer<T>,
    capacity: usize,
}

impl<T> View for SeriesState<T> {
    type V = Seq<(i64, T)>;

    closed spec fn view(&self) -> Seq<(i64, T)> {
        self.buffer@
    }
}

impl<T> SeriesState<T> {
    /// The symbol.
    pub closed spec fn spec_symbol(&self) -> Seq<char> {
        self.symbol@
    }

    /// The period.
    pub closed spec fn spec_duration(&self) -> Duration {
        self.duration
    }

    /// How many bars the series keeps.
    pub closed spec fn spec_capacity(&self) -> nat {
        self.capacity as nat
    }

    /// The id of the bar pushed or updated last (0 before any).
    pub closed spec fn spec_last_id(&self) -> i64 {
        self.buffer.spec_last_id()
    }

    /// The buffer is consistent and has the series' capacity.
    pub closed spec fn wf(&self) -> bool {
        self.buffer.wf() && self.buffer.spec_capacity() == self.capacity
    }

    /// A consistent series never holds more bars than its capacity.
    pub proof fn lemma_len_within_capacity(&self)
        requires
            self.wf(),
        ensures
            self@.len() <= self.spec_capacity(),
    {
    }

    /// An empty series keeping up to `capacity` bars.
    pub fn new(symbol: String, duration: Duration, capacity: usize) -> (s: SeriesState<T>)
        ensures
            s.wf(),
            s@ == Seq::<(i64, T)>::empty(),
            s.spec_symbol() == symbol@,
            s.spec_duration() == duration,
            s.spec_capacity() == capacity,
            s.spec_last_id() == 0,
    {
        SeriesState { symbol, duration, buffer: KlineRingBuffer::new(capacity), capacity }
    }

    /// A series holding `bars` (oldest first), keeping at least 100 bars and
    /// at least as many as given.
    pub fn from_bars(symbol: String, duration: Duration, bars: Vec<(i64, T)>) -> (s: SeriesState<T>)
        ensures
            s.wf(),
            s@ == bars@,
            s.spec_symbol() == symbol@,
            s.spec_duration() == duration,
            s.spec_capacity() == if bars@.len() > 100 { bars@.len() } else { 100 },
    {
        let capacity = if bars.len() > 100 { bars.len() } else { 100 };
        let mut s = SeriesState::new(symbol, duration, capacity);
        let ghost xs = bars@;
        s.fill_gap(bars);
        proof {
            lemma_pushed_all_fits(capacity as nat, xs);
        }
        s
    }

    /// Complete bars, oldest first (a forming newest bar is left out).
    pub fn read(&self) -> (r: Vec<&T>)
        requires
            self@.len() >= 2 ==> self@[self@.len() - 2].0 < i64::MAX,
        ensures
            newest_is_forming(self@) ==> r@ == payloads(self@.drop_last()),
            !newest_is_forming(self@) ==> r@ == payloads(self@),
    {
        self.buffer.complete_bars()
    }

    /// All bars, oldest first, the forming one included.
    pub fn read_all(&self) -> (r: Vec<&T>)
        ensures
            r@ == payloads(self@),
    {
        self.buffer.data()
    }

    /// The newest complete bar.
    pub fn last(&self) -> (r: Option<&T>)
        requires
            self@.len() >= 2 ==> self@[self@.len() - 2].0 < i64::MAX,
        ensures
            self@.len() == 0 ==> r.is_none(),
            newest_is_forming(self@) ==> r == Some(&self@[self@.len() - 2].1),
            self@.len() > 0 && !newest_is_forming(self@) ==> r == Some(&self@.last().1),
    {
        self.buffer.last_complete()
    }

    /// The newest bar, forming or not.
    pub fn current(&self) -> (r: Option<&T>)
        ensures
            self@.len() == 0 ==> r.is_none(),
            self@.len() > 0 ==> r == Some(&self@.last().1),
    {
        self.buffer.current_bar()
    }

    /// The `i`-th bar, 0 being the oldest.
    pub fn get(&self, i: usize) -> (r: Option<&T>)
        ensures
            i < self@.len() ==> r == Some(&self@[i as int].1),
            i >= self@.len() ==> r.is_none(),
    {
        let data = self.buffer.data();
        if i < data.len() {
            Some(data[i])
        } else {
            None
        }
    }

    /// The newest `n` bars, oldest first.
    pub fn recent(&self, n: usize) -> (r: Vec<&T>)
        ensures
            r@ == payloads(last_n(self@, n as nat)),
    {
        self.buffer.recent(n)
    }

    /// Number of bars held.
    pub fn len(&self) -> (n: usize)
        ensures
            n == self@.len(),
    {
        self.buffer.len()
    }

    /// Whether no bar is held.
    pub fn is_empty(&self) -> (b: bool)
        ensures
            b == (self@.len() == 0),
    {
        self.buffer.is_empty()
    }

    /// How many bars the series keeps.
    pub fn capacity(&self) -> (c: usize)
        ensures
            c == self.spec_capacity(),
    {
        self.capacity
    }

    /// The symbol.
    pub fn symbol(&self) -> (s: String)
        ensures
            s@ == self.spec_symbol(),
    {
        self.symbol.clone()
    }

    /// The period.
    pub fn duration(&self) -> (d: Duration)
        ensures
            d == self.spec_duration(),
    {
        self.duration
    }

    /// The id of the bar pushed or updated last.
    pub fn last_id(&self) -> (id: i64)
        ensures
            id == self.spec_last_id(),
    {
        self.buffer.last_id()
    }

    /// Appends bar `bar` with id `id`, dropping the oldest bar when full.
    pub fn push(&mut self, id: i64, bar: T)
        requires
            old(self).wf(),
        ensures
            final(self).wf(),
            final(self)@ == pushed(old(self)@, old(self).spec_capacity(), (id, bar)),
            final(self).spec_last_id() == id,
            final(self).spec_symbol() == old(self).spec_symbol(),
            final(self).spec_duration() == old(self).spec_duration(),
            final(self).spec_capacity() == old(self).spec_capacity(),
    {
        self.buffer.push(id, bar);
    }

    /// Replaces the newest bar, unless `id` is older than the last id seen or
    /// the series is empty.
    pub fn update_last(&mut self, id: i64, bar: T) -> (updated: bool)
        requires
            old(self).wf(),
        ensures
            final(self).wf(),
            id < old(self).spec_last_id() ==> !updated && final(self)@ == old(self)@
                && final(self).spec_last_id() == old(self).spec_last_id(),
            id >= old(self).spec_last_id() ==> final(self).spec_last_id() == id
                && updated == (old(self)@.len() > 0)
                && (updated ==> final(self)@ == old(self)@.update(old(self)@.len() - 1, (id, bar)))
                && (!updated ==> final(self)@ == old(self)@),
            final(self).spec_symbol() == old(self).spec_symbol(),
            final(self).spec_duration() == old(self).spec_duration(),
            final(self).spec_capacity() == old(self).spec_capacity(),
    {
        self.buffer.update_last(id, bar)
    }

    /// Takes a bar of a live feed: a bar with a newer id (or the first bar)
    /// is appended, any other one replaces the newest bar when its id is not
    /// older than the last id seen.
    pub fn handle_update(&mut self, id: i64, bar: T)
        requires
            old(self).wf(),
        ensures
            final(self).wf(),
            old(self)@.len() == 0 || id > old(self).spec_last_id() ==> final(self)@ == pushed(
                old(self)@,
                old(self).spec_capacity(),
                (id, bar),
            ) && final(self).spec_last_id() == id,
            old(self)@.len() > 0 && id == old(self).spec_last_id() ==> final(self)@ == old(
                self,
            )@.update(old(self)@.len() - 1, (id, bar)) && final(self).spec_last_id() == id,
            old(self)@.len() > 0 && id < old(self).spec_last_id() ==> final(self)@ == old(self)@
                && final(self).spec_last_id() == old(self).spec_last_id(),
            final(self).spec_symbol() == old(self).spec_symbol(),
            final(self).spec_duration() == old(self).spec_duration(),
            final(self).spec_capacity() == old(self).spec_capacity(),
    {
        if self.buffer.is_new_bar(id) {
            self.buffer.push(id, bar);
        } else {
            let _ = self.buffer.update_last(id, bar);
        }
    }

    /// Appends `bars` in order, as a run of pushes.
    pub fn fill_gap(&mut self, bars: Vec<(i64, T)>)
        requires
            old(self).wf(),
        ensures
            final(self).wf(),
            final(self)@ == pushed_all(old(self)@, old(self).spec_capacity(), bars@),
            bars@.len() > 0 ==> final(self).spec_last_id() == bars@.last().0,
            bars@.len() == 0 ==> final(self).spec_last_id() == old(self).spec_last_id(),
            final(self).spec_symbol() == old(self).spec_symbol(),
            final(self).spec_duration() == old(self).spec_duration(),
            final(self).spec_capacity() == old(self).spec_capacity(),
    {
        let ghost xs = bars@;
        let ghost start = self@;
        let n = bars.len();
        let mut rest = bars;
        let mut done: Vec<(i64, T)> = Vec::new();
        let ghost cap = self.spec_capacity();
        // move the bars into `done` reversed, so they can be taken oldest first
        while rest.len() > 0
            invariant
                rest@.len() + done@.len() == xs.len(),
                rest@ == xs.take(rest@.len() as int),
                forall|k: int| 0 <= k < done@.len() ==> #[trigger] done@[k] == xs[xs.len() - 1 - k],
            decreases rest@.len(),
        {
            let ghost before = rest@;
            match rest.pop() {
                Some(x) => {
                    proof {
                        assert(x == xs[before.len() - 1]);
                        assert(rest@ =~= xs.take(before.len() - 1));
                    }
                    done.push(x);
                },
                None => {},
            }
        }
        let mut taken: usize = 0;
        while done.len() > 0
            invariant
                self.wf(),
                self.spec_capacity() == cap,
                taken + done@.len() == xs.len(),
                xs.len() == n,
                forall|k: int| 0 <= k < done@.len() ==> #[trigger] done@[k] == xs[xs.len() - 1 - k],
                self@ == pushed_all(start, cap, xs.take(taken as int)),
                taken > 0 ==> self.spec_last_id() == xs[taken - 1].0,
                taken == 0 ==> self.spec_last_id() == old(self).spec_last_id(),
                self.spec_symbol() == old(self).spec_symbol(),
                self.spec_duration() == old(self).spec_duration(),
                start == old(self)@,
                cap == old(self).spec_capacity(),
            decreases done@.len(),
        {
            let ghost before = done@;
            match done.pop() {
                Some(x) => {
                    proof {
                        assert(x == xs[taken as int]);
                        assert(xs.take(taken + 1).drop_last() =~= xs.take(taken as int));
                        assert(xs.take(taken + 1).last() == x);
                    }
                    self.buffer.push(x.0, x.1);
                    taken = taken + 1;
                },
                None => {},
            }
        }
        proof {
            assert(xs.take(xs.len() as int) =~= xs);
        }
    }

    /// Drops every bar, keeping symbol, period and capacity.
    pub fn clear(&mut self)
        requires
            old(self).wf(),
        ensures
            final(self).wf(),
            final(self)@ == Seq::<(i64, T)>::empty(),
            final(self).spec_last_id() == 0,
            final(self).spec_symbol() == old(self).spec_symbol(),
            final(self).spec_duration() == old(self).spec_duration(),
            final(self).spec_capacity() == old(self).spec_capacity(),
    {
        self.buffer = KlineRingBuffer::new(self.capacity);
    }
}

} // verus!
