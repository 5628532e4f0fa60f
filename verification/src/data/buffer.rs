//! Fixed-capacity ring buffers for kline storage.

use std::collections::VecDeque;
use vstd::prelude::*;
use vstd::std_specs::iter::IteratorSpec;

verus! {

broadcast use vstd::std_specs::vecdeque::group_vec_dequeue_axioms;

/// The contents after pushing `x` onto `s` in a buffer of capacity `cap`:
/// when the buffer is full the oldest item is dropped first; a buffer of
/// capacity 0 keeps nothing.
pub open spec fn pushed<T>(s: Seq<T>, cap: nat, x: T) -> Seq<T> {
    if cap == 0 {
        s
    } else if s.len() >= cap {
        s.drop_first().push(x)
    } else {
        s.push(x)
    }
}

/// The last `n` items of `s` (all of them when `s` is shorter).
pub open spec fn last_n<T>(s: Seq<T>, n: nat) -> Seq<T> {
    if s.len() <= n {
        s
    } else {
        s.subrange(s.len() - n, s.len() as int)
    }
}

/// `VecDeque` indexing (`IndexMut`) on an index in bounds: a mutable reference to the
/// `i`-th item; what is written through it becomes that item.
#[verifier::external_body]
fn deque_get_mut<T>(d: &mut VecDeque<T>, i: usize) -> (r: &mut T)
    requires
        i < old(d)@.len(),
    ensures
        *r == old(d)@[i as int],
        final(d)@ == old(d)@.update(i as int, *final(r)),
{
    &mut d[i]
}

#[verifier::external_type_specification]
#[verifier::external_body]
#[verifier::reject_recursive_types(T)]
pub struct ExDequeIterMut<'a, T: 'a>(std::collections::vec_deque::IterMut<'a, T>);

/// `VecDeque::iter_mut`: an iterator handing out one mutable reference to
/// each item, oldest first. Writing through the references changes items
/// but never how many there are.
#[verifier::external_body]
fn deque_iter_mut<T>(d: &mut VecDeque<T>) -> (r: std::collections::vec_deque::IterMut<'_, T>)
    ensures
        IteratorSpec::remaining(&r).len() == old(d)@.len(),
        forall|i: int| 0 <= i < old(d)@.len() ==> *#[trigger] IteratorSpec::remaining(&r)[i] == old(d)@[i],
        final(d)@.len() == old(d)@.len(),
{
    d.iter_mut()
}

/// A queue that keeps at most `capacity` items, dropping the oldest when full.
/// A buffer of capacity 0 keeps nothing.
#[derive(Debug)]
pub struct RingBuffer<T> {
    buf: VecDeque<T>,
    capacity: usize,
}

impl<T> View for RingBuffer<T> {
    type V = Seq<T>;

    closed spec fn view(&self) -> Seq<T> {
        self.buf@
    }
}

impl<T> RingBuffer<T> {
    /// The capacity the buffer was made with.
    pub closed spec fn spec_capacity(&self) -> nat {
        self.capacity as nat
    }

    /// The item count never exceeds the capacity.
    pub open spec fn wf(&self) -> bool {
        self@.len() <= self.spec_capacity()
    }

    /// An empty buffer of the given capacity.
    pub fn new(capacity: usize) -> (r: RingBuffer<T>)
        ensures
            r@ == Seq::<T>::empty(),
            r.spec_capacity() == capacity,
            r.wf(),
    {
        RingBuffer { buf: VecDeque::with_capacity(capacity), capacity }
    }

    /// Appends `item`, first dropping the oldest item when the buffer is full.
    pub fn push(&mut self, item: T)
        requires
            old(self).wf(),
        ensures
            final(self)@ == pushed(old(self)@, old(self).spec_capacity(), item),
            final(self).spec_capacity() == old(self).spec_capacity(),
            final(self).wf(),
    {
        if self.capacity == 0 {
            return;
        }
        if self.buf.len() >= self.capacity {
            let _ = self.buf.pop_front();
        }
        self.buf.push_back(item);
        proof {
            if old(self)@.len() >= old(self).capacity {
                assert(old(self)@.subrange(1, old(self)@.len() as int) =~= old(self)@.drop_first());
            }
        }
    }

    /// Replaces the newest item; returns `false` (changing nothing) when empty.
    pub fn update_last(&mut self, item: T) -> (updated: bool)
        ensures
            updated == (old(self)@.len() > 0),
            updated ==> final(self)@ == old(self)@.update(old(self)@.len() - 1, item),
            !updated ==> final(self)@ == old(self)@,
            final(self).spec_capacity() == old(self).spec_capacity(),
    {
        match self.buf.pop_back() {
            Some(_) => {
                self.buf.push_back(item);
                proof {
                    assert(final(self)@ =~= old(self)@.update(old(self)@.len() - 1, item));
                }
                true
            },
            None => false,
        }
    }

    /// The `i`-th item, 0 being the oldest.
    pub fn get(&self, i: usize) -> (r: Option<&T>)
        ensures
            i < self@.len() ==> r == Some(&self@[i as int]),
            i >= self@.len() ==> r.is_none(),
    {
        if i < self.buf.len() {
            Some(&self.buf[i])
        } else {
            None
        }
    }

    /// Mutable access to the `i`-th item, 0 being the oldest.
    pub fn get_mut(&mut self, i: usize) -> (r: Option<&mut T>)
        ensures
            i < old(self)@.len() ==> r is Some && *r->0 == old(self)@[i as int]
                && final(self)@ == old(self)@.update(i as int, *final(r->0))
                && final(self).spec_capacity() == old(self).spec_capacity(),
            i >= old(self)@.len() ==> r is None && final(self)@ == old(self)@
                && final(self).spec_capacity() == old(self).spec_capacity(),
    {
        if i < self.buf.len() {
            Some(deque_get_mut(&mut self.buf, i))
        } else {
            None
        }
    }

    /// Mutable access to the newest item.
    pub fn last_mut(&mut self) -> (r: Option<&mut T>)
        ensures
            old(self)@.len() > 0 ==> r is Some && *r->0 == old(self)@.last()
                && final(self)@ == old(self)@.update(old(self)@.len() - 1, *final(r->0))
                && final(self).spec_capacity() == old(self).spec_capacity(),
            old(self)@.len() == 0 ==> r is None && final(self)@ == old(self)@
                && final(self).spec_capacity() == old(self).spec_capacity(),
    {
        let n = self.buf.len();
        if n > 0 {
            Some(deque_get_mut(&mut self.buf, n - 1))
        } else {
            None
        }
    }

    /// A mutable iterator over the items, oldest first; the buffer keeps its
    /// length and capacity.
    pub fn iter_mut(&mut self) -> (r: std::collections::vec_deque::IterMut<'_, T>)
        ensures
            IteratorSpec::remaining(&r).len() == old(self)@.len(),
            forall|i: int| 0 <= i < old(self)@.len() ==> *#[trigger] IteratorSpec::remaining(&r)[i] == old(self)@[i],
            final(self)@.len() == old(self)@.len(),
            final(self).spec_capacity() == old(self).spec_capacity(),
    {
        deque_iter_mut(&mut self.buf)
    }

    /// The newest item.
    pub fn last(&self) -> (r: Option<&T>)
        ensures
            self@.len() > 0 ==> r == Some(&self@.last()),
            self@.len() == 0 ==> r.is_none(),
    {
        let n = self.buf.len();
        if n > 0 {
            Some(&self.buf[n - 1])
        } else {
            None
        }
    }

    /// The oldest item.
    pub fn first(&self) -> (r: Option<&T>)
        ensures
            self@.len() > 0 ==> r == Some(&self@[0]),
            self@.len() == 0 ==> r.is_none(),
    {
        self.get(0)
    }

    /// Number of items held.
    pub fn len(&self) -> (n: usize)
        ensures
            n == self@.len(),
    {
        self.buf.len()
    }

    /// Whether no item is held.
    pub fn is_empty(&self) -> (b: bool)
        ensures
            b == (self@.len() == 0),
    {
        self.buf.len() == 0
    }

    /// The capacity.
    pub fn capacity(&self) -> (c: usize)
        ensures
            c == self.spec_capacity(),
    {
        self.capacity
    }

    /// Removes every item.
    pub fn clear(&mut self)
        ensures
            final(self)@ == Seq::<T>::empty(),
            final(self).spec_capacity() == old(self).spec_capacity(),
            final(self).wf(),
    {
        self.buf.clear();
    }

    /// References to all items, oldest first.
    pub fn to_vec(&self) -> (r: Vec<&T>)
        ensures
            r@ == self@.as_ref(),
    {
        self.recent(self.buf.len())
    }

    /// An iterator over the items, oldest first.
    pub fn iter(&self) -> (r: std::collections::vec_deque::Iter<'_, T>)
        ensures
            IteratorSpec::remaining(&r) == self@.as_ref(),
    {
        self.buf.iter()
    }

    /// References to the newest `n` items (all of them when fewer), oldest first.
    pub fn recent(&self, n: usize) -> (r: Vec<&T>)
        ensures
            r@ == last_n(self@, n as nat).as_ref(),
    {
        let len = self.buf.len();
        let start = len.saturating_sub(n);
        let mut out: Vec<&T> = Vec::new();
        let mut i = start;
        while i < len
            invariant
                len == self@.len(),
                start == (if len >= n { len - n } else { 0 }),
                start <= i <= len,
                out@ == self@.subrange(start as int, i as int).as_ref(),
            decreases len - i,
        {
            out.push(&self.buf[i]);
            proof {
                assert(self@.subrange(start as int, i + 1).as_ref() =~= self@.subrange(
                    start as int,
                    i as int,
                ).as_ref().push(&self@[i as int]));
            }
            i = i + 1;
        }
        proof {
            assert(last_n(self@, n as nat) =~= self@.subrange(start as int, len as int));
        }
        out
    }
}

impl<T> Default for RingBuffer<T> {
    /// An empty buffer of capacity 100.
    fn default() -> (r: RingBuffer<T>)
        ensures
            r@ == Seq::<T>::empty(),
            r.spec_capacity() == 100,
    {
        Self::new(100)
    }
}

/// A buffer that has only ever been filled by `push` holds exactly the
/// newest `capacity` items pushed: pushing one more item onto such a buffer
/// gives the newest `capacity` items of the longer history.
pub proof fn lemma_push_keeps_newest<T>(history: Seq<T>, cap: nat, x: T)
    ensures
        pushed(last_n(history, cap), cap, x) == last_n(history.push(x), cap),
{
    let s = last_n(history, cap);
    let h2 = history.push(x);
    if cap == 0 {
        assert(pushed(s, cap, x) =~= last_n(h2, cap));
    } else if history.len() < cap {
        assert(pushed(s, cap, x) =~= last_n(h2, cap));
    } else {
        assert(s.len() == cap);
        assert(s.drop_first().push(x) =~= h2.subrange(h2.len() - cap, h2.len() as int));
    }
}


/// Whether the newest entry directly follows the one before it (ids `k`
/// and `k + 1`), which marks the newest entry as the bar still being formed.
pub open spec fn newest_is_forming<T>(entries: Seq<(i64, T)>) -> bool {
    entries.len() >= 2 && entries[entries.len() - 1].0 == entries[entries.len() - 2].0 + 1
}

/// Payload references of `entries`, in order.
pub open spec fn payloads<'a, T>(entries: Seq<(i64, T)>) -> Seq<&'a T> {
    entries.map_values(|e: (i64, T)| &e.1)
}

/// A ring buffer of bars keyed by their ids; the newest bar may still be
/// forming.
#[derive(Debug)]
pub struct KlineRingBuffer<T> {
    inner: RingBuffer<(i64, T)>,
    last_id: i64,
}

impl<T> View for KlineRingBuffer<T> {
    type V = Seq<(i64, T)>;

    closed spec fn view(&self) -> Seq<(i64, T)> {
        self.inner@
    }
}

impl<T> KlineRingBuffer<T> {
    /// The id of the most recently pushed or updated bar (0 before any).
    pub closed spec fn spec_last_id(&self) -> i64 {
        self.last_id
    }

    /// The capacity.
    pub closed spec fn spec_capacity(&self) -> nat {
        self.inner.spec_capacity()
    }

    /// The bar count never exceeds the capacity.
    pub open spec fn wf(&self) -> bool {
        self@.len() <= self.spec_capacity()
    }

    /// An empty buffer of the given capacity.
    pub fn new(capacity: usize) -> (r: KlineRingBuffer<T>)
        ensures
            r@ == Seq::<(i64, T)>::empty(),
            r.spec_last_id() == 0,
            r.spec_capacity() == capacity,
            r.wf(),
    {
        KlineRingBuffer { inner: RingBuffer::new(capacity), last_id: 0 }
    }

    /// Appends the bar `bar` with id `id`.
    pub fn push(&mut self, id: i64, bar: T)
        requires
            old(self).wf(),
        ensures
            final(self)@ == pushed(old(self)@, old(self).spec_capacity(), (id, bar)),
            final(self).spec_last_id() == id,
            final(self).spec_capacity() == old(self).spec_capacity(),
            final(self).wf(),
    {
        self.last_id = id;
        self.inner.push((id, bar));
    }

    /// Replaces the newest bar, unless `id` is older than the last id seen
    /// or the buffer is empty.
    pub fn update_last(&mut self, id: i64, bar: T) -> (updated: bool)
        requires
            old(self).wf(),
        ensures
            id < old(self).spec_last_id() ==> !updated && final(self)@ == old(self)@
                && final(self).spec_last_id() == old(self).spec_last_id(),
            id >= old(self).spec_last_id() ==> final(self).spec_last_id() == id
                && updated == (old(self)@.len() > 0)
                && (updated ==> final(self)@ == old(self)@.update(old(self)@.len() - 1, (id, bar)))
                && (!updated ==> final(self)@ == old(self)@),
            final(self).spec_capacity() == old(self).spec_capacity(),
            final(self).wf(),
    {
        if id < self.last_id {
            return false;
        }
        self.last_id = id;
        self.inner.update_last((id, bar))
    }

    /// The newest bar that is complete: the one before the newest when the
    /// newest is still forming, else the newest.
    pub fn last_complete(&self) -> (r: Option<&T>)
        requires
            self@.len() >= 2 ==> self@[self@.len() - 2].0 < i64::MAX,
        ensures
            self@.len() == 0 ==> r.is_none(),
            newest_is_forming(self@) ==> r == Some(&self@[self@.len() - 2].1),
            self@.len() > 0 && !newest_is_forming(self@) ==> r == Some(&self@.last().1),
    {
        let len = self.inner.len();
        if len < 2 {
            return match self.inner.last() {
                Some(e) => Some(&e.1),
                None => None,
            };
        }
        let prev = self.inner.get(len - 2);
        let curr = self.inner.get(len - 1);
        match (prev, curr) {
            (Some(p), Some(c)) => {
                if c.0 == p.0 + 1 {
                    return Some(&p.1);
                }
            },
            _ => {},
        }
        match self.inner.last() {
            Some(e) => Some(&e.1),
            None => None,
        }
    }

    /// The newest bar, forming or not.
    pub fn current_bar(&self) -> (r: Option<&T>)
        ensures
            self@.len() == 0 ==> r.is_none(),
            self@.len() > 0 ==> r == Some(&self@.last().1),
    {
        match self.inner.last() {
            Some(e) => Some(&e.1),
            None => None,
        }
    }

    /// Whether a bar with id `bar_id` would start a new bar (rather than
    /// update the newest one).
    pub fn is_new_bar(&self, bar_id: i64) -> (b: bool)
        ensures
            b == (self@.len() == 0 || bar_id > self.spec_last_id()),
    {
        if self.inner.is_empty() {
            return true;
        }
        bar_id > self.last_id
    }

    /// The id of the most recently pushed or updated bar.
    pub fn last_id(&self) -> (id: i64)
        ensures
            id == self.spec_last_id(),
    {
        self.last_id
    }

    /// All bars, oldest first.
    pub fn data(&self) -> (r: Vec<&T>)
        ensures
            r@ == payloads(self@),
    {
        let n = self.inner.len();
        self.payload_range(0, n)
    }

    fn payload_range(&self, from: usize, to: usize) -> (r: Vec<&T>)
        requires
            from <= to <= self@.len(),
        ensures
            r@ == payloads(self@.subrange(from as int, to as int)),
    {
        let mut out: Vec<&T> = Vec::new();
        let mut i = from;
        while i < to
            invariant
                from <= i <= to <= self@.len(),
                out@ == payloads(self@.subrange(from as int, i as int)),
            decreases to - i,
        {
            match self.inner.get(i) {
                Some(e) => {
                    out.push(&e.1);
                },
                None => {},
            }
            proof {
                assert(payloads(self@.subrange(from as int, i + 1)) =~= payloads(
                    self@.subrange(from as int, i as int),
                ).push(&self@[i as int].1));
            }
            i = i + 1;
        }
        proof {
            if from == 0 && to == self@.len() {
                assert(self@.subrange(0, to as int) =~= self@);
            }
        }
        out
    }

    /// All complete bars, oldest first: every bar except a forming newest one.
    pub fn complete_bars(&self) -> (r: Vec<&T>)
        requires
            self@.len() >= 2 ==> self@[self@.len() - 2].0 < i64::MAX,
        ensures
            newest_is_forming(self@) ==> r@ == payloads(self@.drop_last()),
            !newest_is_forming(self@) ==> r@ == payloads(self@),
    {
        let len = self.inner.len();
        if len < 2 {
            return self.payload_range(0, len);
        }
        let prev = self.inner.get(len - 2);
        let curr = self.inner.get(len - 1);
        match (prev, curr) {
            (Some(p), Some(c)) => {
                if c.0 == p.0 + 1 {
                    let r = self.payload_range(0, len - 1);
                    proof {
                        assert(self@.subrange(0, len - 1) =~= self@.drop_last());
                    }
                    return r;
                }
            },
            _ => {},
        }
        self.payload_range(0, len)
    }

    /// Number of bars held.
    pub fn len(&self) -> (n: usize)
        ensures
            n == self@.len(),
    {
        self.inner.len()
    }

    /// Whether no bar is held.
    pub fn is_empty(&self) -> (b: bool)
        ensures
            b == (self@.len() == 0),
    {
        self.inner.is_empty()
    }

    /// The newest `n` bars (all of them when fewer), oldest first.
    pub fn recent(&self, n: usize) -> (r: Vec<&T>)
        ensures
            r@ == payloads(last_n(self@, n as nat)),
    {
        let len = self.inner.len();
        let from = if len >= n { len - n } else { 0 };
        let r = self.payload_range(from, len);
        proof {
            assert(last_n(self@, n as nat) =~= self@.subrange(from as int, len as int));
        }
        r
    }
}

impl<T> Default for KlineRingBuffer<T> {
    /// An empty buffer of capacity 100.
    fn default() -> (r: KlineRingBuffer<T>)
        ensures
            r@ == Seq::<(i64, T)>::empty(),
            r.spec_capacity() == 100,
            r.wf(),
    {
        Self::new(100)
    }
}

} // verus!
