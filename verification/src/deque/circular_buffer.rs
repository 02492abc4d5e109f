use vstd::prelude::*;

verus! {

/// A fixed-capacity double-ended queue stored in a ring of slots.
///
/// The logical sequence starts at slot `start` and wraps around the end of
/// `data`. Every slot that holds a logical element is `Some`, every other
/// slot is `None`.
pub struct CircularBuffer<T> {
    data: Vec<Option<T>>,
    start: usize,
    len: usize,
}

/// The slot that holds logical position `i` of a ring with `cap` slots whose
/// first element sits in slot `start`.
pub open spec fn ring_slot(start: int, i: int, cap: int) -> int {
    if start + i < cap {
        start + i
    } else {
        start + i - cap
    }
}

/// The logical position held by slot `p` of a ring whose first element sits
/// in slot `start`.
pub open spec fn ring_offset(start: int, p: int, cap: int) -> int {
    if p >= start {
        p - start
    } else {
        p + cap - start
    }
}

/// The capacity reached from `cap` slots by doubling until `n` elements fit.
pub open spec fn doubled_capacity(cap: nat, n: nat) -> nat
    decreases if n >= cap { n - cap } else { 0int },
{
    if cap == 0 {
        0
    } else if n <= cap {
        cap
    } else {
        doubled_capacity(2 * cap, n)
    }
}

/// One more element doubles the capacity exactly when the elements filled it.
proof fn lemma_doubled_capacity_step(cap: nat, n: nat)
    requires
        cap > 0,
    ensures
        doubled_capacity(cap, n) >= n,
        doubled_capacity(cap, n) >= cap,
        doubled_capacity(cap, n + 1) == if doubled_capacity(cap, n) == n {
            2 * doubled_capacity(cap, n)
        } else {
            doubled_capacity(cap, n)
        },
    decreases if n >= cap { n - cap } else { 0int },
{
    if n > cap {
        lemma_doubled_capacity_step(2 * cap, n);
    } else if n == cap {
        assert(doubled_capacity(2 * cap, n + 1) == 2 * cap);
    }
}

impl<T> CircularBuffer<T> {
    /// Number of slots.
    pub closed spec fn spec_capacity(&self) -> nat {
        self.data@.len()
    }

    /// The slot in which the first element lies.
    pub closed spec fn spec_start(&self) -> nat {
        self.start as nat
    }

    closed spec fn slot(&self, i: int) -> int {
        ring_slot(self.start as int, i, self.data@.len() as int)
    }

    /// The internal invariant of the ring.
    pub closed spec fn wf(&self) -> bool {
        let cap = self.data@.len() as int;
        &&& cap <= usize::MAX
        &&& self.len <= cap
        &&& (cap == 0 ==> self.start == 0)
        &&& (cap > 0 ==> self.start < cap)
        &&& forall|p: int|
            0 <= p < cap ==> (#[trigger] self.data@[p] is Some <==> ring_offset(
                self.start as int,
                p,
                cap,
            ) < self.len)
    }

    /// The elements, front first.
    pub closed spec fn view(&self) -> Seq<T> {
        Seq::new(self.len as nat, |i: int| self.data@[self.slot(i)]->0)
    }

    proof fn lemma_slot(&self, i: int)
        requires
            self.wf(),
            0 <= i < self.data@.len(),
        ensures
            0 <= self.slot(i) < self.data@.len(),
            ring_offset(self.start as int, self.slot(i), self.data@.len() as int) == i,
            i < self.len ==> self.data@[self.slot(i)] is Some,
    {
    }

    /// A buffer never holds more elements than it has slots.
    pub proof fn len_within_capacity(&self)
        requires
            self.wf(),
        ensures
            self@.len() <= self.spec_capacity(),
    {
    }

    /// Creates an empty buffer with `cap` slots.
    pub fn with_capacity(cap: usize) -> (r: Self)
        ensures
            r.wf(),
            r@ == Seq::<T>::empty(),
            r.spec_capacity() == cap,
            r.spec_start() == 0,
    {
        let mut data: Vec<Option<T>> = Vec::with_capacity(cap);
        let mut k: usize = 0;
        while k < cap
            invariant
                k <= cap,
                data@.len() == k,
                forall|p: int| 0 <= p < k ==> #[trigger] data@[p] is None,
            decreases cap - k,
        {
            data.push(None);
            k = k + 1;
        }
        CircularBuffer { data, start: 0, len: 0 }
    }

    /// The number of elements stored.
    pub fn len(&self) -> (r: usize)
        requires
            self.wf(),
        ensures
            r == self@.len(),
    {
        self.len
    }

    /// The number of slots.
    pub fn capacity(&self) -> (r: usize)
        ensures
            r == self.spec_capacity(),
    {
        self.data.len()
    }

    /// The slot in which the first element lies.
    pub fn start(&self) -> (r: usize)
        ensures
            r == self.spec_start(),
    {
        self.start
    }

    /// Whether no element is stored.
    pub fn is_empty(&self) -> (r: bool)
        requires
            self.wf(),
        ensures
            r == (self@.len() == 0),
    {
        self.len() == 0
    }

    /// Whether every slot holds an element.
    pub fn is_full(&self) -> (r: bool)
        requires
            self.wf(),
        ensures
            r == (self@.len() == self.spec_capacity()),
    {
        self.len() == self.capacity()
    }

    /// The slot `offset` places after slot `base`, wrapping around the end.
    fn wrap_index(&self, base: usize, offset: usize) -> (r: usize)
        requires
            base < self.data@.len(),
            offset < self.data@.len(),
        ensures
            r == ring_slot(base as int, offset as int, self.data@.len() as int),
    {
        let room = self.data.len() - base;
        if offset < room {
            base + offset
        } else {
            offset - room
        }
    }

    /// The slot of logical position `logical`, or `None` when it lies beyond
    /// the capacity.
    fn logical_to_physical(&self, logical: usize) -> (r: Option<usize>)
        requires
            self.wf(),
        ensures
            logical >= self.spec_capacity() ==> r is None,
            logical < self.spec_capacity() ==> r is Some && r->0 == self.slot(logical as int),
    {
        if logical >= self.capacity() {
            return None;
        }
        Some(self.wrap_index(self.start, logical))
    }

    /// Appends `val` at the back, or hands it back when the buffer is full.
    pub fn push_back(&mut self, val: T) -> (r: Result<(), T>)
        requires
            old(self).wf(),
        ensures
            final(self).wf(),
            final(self).spec_capacity() == old(self).spec_capacity(),
            final(self).spec_start() == old(self).spec_start(),
            old(self)@.len() < old(self).spec_capacity() ==> r is Ok
                && final(self)@ == old(self)@.push(val),
            old(self)@.len() == old(self).spec_capacity() ==> r == Err::<(), T>(val)
                && final(self)@ == old(self)@,
    {
        let maybe_p_index = self.logical_to_physical(self.len);
        if let Some(p_index) = maybe_p_index {
            proof {
                self.lemma_slot(self.len as int);
            }
            self.data.set(p_index, Some(val));
            self.len = self.len + 1;
            proof {
                let cap = self.data@.len() as int;
                assert forall|p: int| 0 <= p < cap implies (#[trigger] self.data@[p] is Some
                    <==> ring_offset(self.start as int, p, cap) < self.len) by {
                    if p != p_index {
                        assert(old(self).data@[p] == self.data@[p]);
                    }
                }
                assert forall|i: int| 0 <= i < old(self).len implies #[trigger] self.view()[i]
                    == old(self).view()[i] by {
                    old(self).lemma_slot(i);
                }
                assert(self.view() =~= old(self).view().push(val));
            }
            Ok(())
        } else {
            Err(val)
        }
    }

    /// Puts `val` in front of the first element, or hands it back when the
    /// buffer is full.
    pub fn push_front(&mut self, val: T) -> (r: Result<(), T>)
        requires
            old(self).wf(),
        ensures
            final(self).wf(),
            final(self).spec_capacity() == old(self).spec_capacity(),
            old(self)@.len() < old(self).spec_capacity() ==> r is Ok
                && final(self)@ == seq![val] + old(self)@
                && final(self).spec_start() == (if old(self).spec_start() == 0 {
                    old(self).spec_capacity() - 1
                } else {
                    old(self).spec_start() - 1
                }),
            old(self)@.len() == old(self).spec_capacity() ==> r == Err::<(), T>(val)
                && final(self)@ == old(self)@
                && final(self).spec_start() == old(self).spec_start(),
    {
        if self.is_full() {
            return Err(val);
        }
        let cap = self.data.len();
        self.start = if self.start == 0 {
            cap - 1
        } else {
            self.start - 1
        };
        self.data.set(self.start, Some(val));
        self.len = self.len + 1;
        proof {
            let c = cap as int;
            assert forall|p: int| 0 <= p < c implies (#[trigger] self.data@[p] is Some
                <==> ring_offset(self.start as int, p, c) < self.len) by {
                if p != self.start {
                    assert(old(self).data@[p] == self.data@[p]);
                }
            }
            assert forall|i: int| 0 <= i < old(self).len implies #[trigger] self.view()[i + 1]
                == old(self).view()[i] by {
                old(self).lemma_slot(i);
            }
            assert(self.view() =~= seq![val] + old(self).view());
        }
        Ok(())
    }

    /// Removes and returns the last element, or `None` when empty.
    pub fn pop_back(&mut self) -> (r: Option<T>)
        requires
            old(self).wf(),
        ensures
            final(self).wf(),
            final(self).spec_capacity() == old(self).spec_capacity(),
            final(self).spec_start() == old(self).spec_start(),
            old(self)@.len() == 0 ==> r is None && final(self)@ == old(self)@,
            old(self)@.len() > 0 ==> r == Some(old(self)@.last())
                && final(self)@ == old(self)@.drop_last(),
    {
        if self.is_empty() {
            return None;
        }
        let p_index = self.logical_to_physical(self.len - 1).unwrap();
        proof {
            self.lemma_slot(self.len - 1);
        }
        let val = self.data[p_index].take();
        self.len = self.len - 1;
        proof {
            let c = self.data@.len() as int;
            assert forall|p: int| 0 <= p < c implies (#[trigger] self.data@[p] is Some
                <==> ring_offset(self.start as int, p, c) < self.len) by {
                if p != p_index {
                    assert(old(self).data@[p] == self.data@[p]);
                }
            }
            assert forall|i: int| 0 <= i < self.len implies #[trigger] self.view()[i]
                == old(self).view()[i] by {
                old(self).lemma_slot(i);
            }
            assert(self.view() =~= old(self).view().drop_last());
        }
        val
    }

    /// Removes and returns the first element, or `None` when empty.
    pub fn pop_front(&mut self) -> (r: Option<T>)
        requires
            old(self).wf(),
        ensures
            final(self).wf(),
            final(self).spec_capacity() == old(self).spec_capacity(),
            old(self)@.len() == 0 ==> r is None && final(self)@ == old(self)@
                && final(self).spec_start() == old(self).spec_start(),
            old(self)@.len() > 0 ==> r == Some(old(self)@[0])
                && final(self)@ == old(self)@.drop_first()
                && final(self).spec_start() == ring_slot(
                    old(self).spec_start() as int,
                    1,
                    old(self).spec_capacity() as int,
                ),
    {
        if self.is_empty() {
            return None;
        }
        let idx = self.logical_to_physical(0).unwrap();
        proof {
            self.lemma_slot(0);
        }
        let val = self.data[idx].take();
        let cap = self.data.len();
        self.start = if self.start + 1 == cap {
            0
        } else {
            self.start + 1
        };
        self.len = self.len - 1;
        proof {
            let c = cap as int;
            assert forall|p: int| 0 <= p < c implies (#[trigger] self.data@[p] is Some
                <==> ring_offset(self.start as int, p, c) < self.len) by {
                if p != idx {
                    assert(old(self).data@[p] == self.data@[p]);
                }
            }
            assert forall|i: int| 0 <= i < self.len implies #[trigger] self.view()[i]
                == old(self).view()[i + 1] by {
                old(self).lemma_slot(i + 1);
            }
            assert(self.view() =~= old(self).view().drop_first());
        }
        val
    }

    /// A reference to the element at logical position `i`, or `None` when
    /// `i` is out of bounds.
    pub fn get(&self, i: usize) -> (r: Option<&T>)
        requires
            self.wf(),
        ensures
            i < self@.len() ==> r == Some(&self@[i as int]),
            i >= self@.len() ==> r is None,
    {
        if i >= self.len {
            return None;
        }
        let p_index = self.logical_to_physical(i).unwrap();
        proof {
            self.lemma_slot(i as int);
        }
        self.data[p_index].as_ref()
    }

    /// A mutable reference to the element at logical position `i`, or
    /// `None` when `i` is out of bounds.
    pub fn get_mut(&mut self, i: usize) -> (r: Option<&mut T>)
        requires
            old(self).wf(),
        ensures
            final(self).wf(),
            final(self).spec_capacity() == old(self).spec_capacity(),
            final(self).spec_start() == old(self).spec_start(),
            i >= old(self)@.len() ==> r is None && final(self)@ == old(self)@,
            i < old(self)@.len() ==> r is Some && *r->0 == old(self)@[i as int]
                && final(self)@ == old(self)@.update(i as int, *final(r->0)),
    {
        if i >= self.len {
            return None;
        }
        let p_index = self.logical_to_physical(i).unwrap();
        proof {
            self.lemma_slot(i as int);
        }
        self.data[p_index].as_mut()
    }

    /// Moves every element into a fresh ring of `new_cap` slots, front
    /// element first in slot 0.
    fn relocate(&mut self, new_cap: usize)
        requires
            old(self).wf(),
            new_cap >= old(self)@.len(),
        ensures
            final(self).wf(),
            final(self)@ == old(self)@,
            final(self).spec_capacity() == new_cap,
            final(self).spec_start() == 0,
    {
        let mut new_data: Vec<Option<T>> = Vec::with_capacity(new_cap);
        let mut k: usize = 0;
        while k < new_cap
            invariant
                k <= new_cap,
                new_data@.len() == k,
                forall|p: int| 0 <= p < k ==> #[trigger] new_data@[p] is None,
            decreases new_cap - k,
        {
            new_data.push(None);
            k = k + 1;
        }
        let ghost elems = self@;
        let ghost cap = self.data@.len() as int;
        let mut i: usize = 0;
        while i < self.len
            invariant
                old(self).wf(),
                self.len == old(self).len,
                self.start == old(self).start,
                self.data@.len() == cap,
                cap == old(self).data@.len(),
                elems == old(self)@,
                i <= self.len,
                self.len <= new_cap,
                new_data@.len() == new_cap,
                forall|p: int|
                    0 <= p < new_cap ==> (#[trigger] new_data@[p] is Some <==> p < i),
                forall|p: int| 0 <= p < i ==> new_data@[p]->0 == #[trigger] elems[p],
                forall|p: int|
                    0 <= p < cap && ring_offset(self.start as int, p, cap) >= i
                        ==> #[trigger] self.data@[p] == old(self).data@[p],
            decreases self.len - i,
        {
            let old_idx = self.wrap_index(self.start, i);
            proof {
                old(self).lemma_slot(i as int);
            }
            let val = self.data[old_idx].take();
            new_data.set(i, val);
            i = i + 1;
            proof {
                assert forall|p: int|
                    0 <= p < cap && ring_offset(self.start as int, p, cap) >= i
                        implies #[trigger] self.data@[p] == old(self).data@[p] by {
                    assert(p != old_idx);
                }
            }
        }
        proof {
            assert forall|j: int| 0 <= j < new_cap implies (#[trigger] new_data@[j] is Some
                <==> ring_offset(0, j, new_cap as int) < self.len) by {}
        }
        self.data = new_data;
        self.start = 0;
    }

    /// Rearranges the slots so that the first element lies in slot 0. An
    /// empty buffer, or one whose first element already lies in slot 0, is
    /// left as it is.
    pub fn make_contiguous(&mut self)
        requires
            old(self).wf(),
        ensures
            final(self).wf(),
            final(self)@ == old(self)@,
            final(self).spec_capacity() == old(self).spec_capacity(),
            old(self)@.len() == 0 ==> *final(self) == *old(self),
            old(self)@.len() > 0 ==> final(self).spec_start() == 0,
    {
        if self.len == 0 || self.start == 0 {
            return;
        }
        let cap = self.capacity();
        self.relocate(cap);
    }

    /// Grows the buffer to `new_cap` slots, first element in slot 0. Fails
    /// and changes nothing unless `new_cap` exceeds the current capacity.
    pub fn resize(&mut self, new_cap: usize) -> (r: Result<(), ()>)
        requires
            old(self).wf(),
        ensures
            final(self).wf(),
            final(self)@ == old(self)@,
            new_cap <= old(self).spec_capacity() ==> r is Err && *final(self) == *old(self),
            new_cap > old(self).spec_capacity() ==> r is Ok && final(self).spec_capacity()
                == new_cap && final(self).spec_start() == 0,
    {
        if new_cap <= self.capacity() {
            return Err(());
        }
        self.relocate(new_cap);
        Ok(())
    }

    /// Moves the buffer into a cursor that hands out its elements front to
    /// back.
    pub fn into_iter(self) -> (r: IntoIter<T>)
        requires
            self.wf(),
        ensures
            r.wf(),
            r@ == self@,
    {
        IntoIter { buf: self }
    }

    /// Builds a buffer holding `items` in order. It starts with 4 slots and
    /// doubles its capacity whenever it is full.
    pub fn from_iter(items: Vec<T>) -> (r: Self)
        requires
            items@.len() <= usize::MAX / 2 + 1,
        ensures
            r.wf(),
            r@ == items@,
            r.spec_capacity() == doubled_capacity(4, items@.len()),
            r.spec_start() == 0,
    {
        let ghost all = items@;
        let n = items.len();
        let mut items = items;
        let mut reversed: Vec<T> = Vec::new();
        while items.len() > 0
            invariant
                n == all.len(),
                items@ == all.take(items@.len() as int),
                reversed@.len() == n - items@.len(),
                forall|j: int| 0 <= j < reversed@.len() ==> #[trigger] reversed@[j] == all[n - 1 - j],
            decreases items@.len(),
        {
            let x = items.pop().unwrap();
            reversed.push(x);
        }
        let mut buf = CircularBuffer::with_capacity(4);
        while reversed.len() > 0
            invariant
                n == all.len(),
                n <= usize::MAX / 2 + 1,
                reversed@.len() <= n,
                forall|j: int| 0 <= j < reversed@.len() ==> #[trigger] reversed@[j] == all[n - 1 - j],
                buf.wf(),
                buf.spec_capacity() == doubled_capacity(4, buf@.len()),
                buf.spec_start() == 0,
                buf@ == all.take(n - reversed@.len()),
            decreases reversed@.len(),
        {
            let x = reversed.pop().unwrap();
            proof {
                lemma_doubled_capacity_step(4, buf@.len());
            }
            if buf.is_full() {
                let grown = buf.capacity() * 2;
                let _ = buf.resize(grown);
            }
            let _ = buf.push_back(x);
            proof {
                assert(all.take(n - reversed@.len()) =~= all.take(n - reversed@.len() - 1).push(x));
            }
        }
        proof {
            assert(all.take(n as int) =~= all);
        }
        buf
    }

    /// A cursor that hands out the elements front to back.
    pub fn iter(&self) -> (r: Iter<'_, T>)
        requires
            self.wf(),
        ensures
            r.wf(),
            r.elements() == self@,
            r.position() == 0,
    {
        Iter { buf: self, idx: 0 }
    }

    /// A cursor that hands out mutable references to the elements, front to
    /// back.
    pub fn iter_mut(&mut self) -> (r: IterMut<'_, T>)
        requires
            old(self).wf(),
        ensures
            r.wf(),
            r.elements() == old(self)@,
            r.position() == 0,
            *final(self) == *final(r.buf),
    {
        IterMut { buf: self, idx: 0 }
    }
}

/// A cursor over the elements of a [`CircularBuffer`], front to back.
pub struct Iter<'a, T> {
    buf: &'a CircularBuffer<T>,
    idx: usize,
}

impl<'a, T> Iter<'a, T> {
    /// The elements the cursor walks over.
    pub closed spec fn elements(&self) -> Seq<T> {
        self.buf@
    }

    /// How many elements were handed out so far.
    pub closed spec fn position(&self) -> nat {
        self.idx as nat
    }

    /// The internal invariant of the cursor.
    pub closed spec fn wf(&self) -> bool {
        self.buf.wf() && self.idx <= self.buf@.len()
    }

    /// The next element, or `None` once every element was handed out.
    pub fn next(&mut self) -> (r: Option<&'a T>)
        requires
            old(self).wf(),
        ensures
            final(self).wf(),
            final(self).elements() == old(self).elements(),
            old(self).position() < old(self).elements().len() ==> r == Some(
                &old(self).elements()[old(self).position() as int],
            ) && final(self).position() == old(self).position() + 1,
            old(self).position() >= old(self).elements().len() ==> r is None
                && final(self).position() == old(self).position(),
    {
        let out = self.buf.get(self.idx);
        if self.idx < self.buf.len() {
            self.idx = self.idx + 1;
        }
        out
    }
}

/// A cursor over mutable references to the elements of a
/// [`CircularBuffer`], front to back.
pub struct IterMut<'a, T> {
    /// The buffer walked over.
    pub buf: &'a mut CircularBuffer<T>,
    /// How many elements were handed out so far.
    pub idx: usize,
}

impl<'a, T> IterMut<'a, T> {
    /// The current elements of the buffer the cursor walks over.
    pub open spec fn elements(&self) -> Seq<T> {
        self.buf@
    }

    /// How many elements were handed out so far.
    pub open spec fn position(&self) -> nat {
        self.idx as nat
    }

    /// The internal invariant of the cursor.
    pub open spec fn wf(&self) -> bool {
        self.buf.wf() && self.idx <= self.buf@.len()
    }

    /// A mutable reference to the next element, or `None` once every element
    /// was handed out.
    pub fn next(&mut self) -> (r: Option<&mut T>)
        requires
            old(self).wf(),
        ensures
            final(self).wf(),
            *final(final(self).buf) == *final(old(self).buf),
            final(self).buf.spec_capacity() == old(self).buf.spec_capacity(),
            final(self).buf.spec_start() == old(self).buf.spec_start(),
            old(self).position() < old(self).elements().len() ==> r is Some
                && *r->0 == old(self).elements()[old(self).position() as int]
                && final(self).elements() == old(self).elements().update(
                    old(self).position() as int,
                    *final(r->0),
                ) && final(self).position() == old(self).position() + 1,
            old(self).position() >= old(self).elements().len() ==> r is None
                && final(self).elements() == old(self).elements()
                && final(self).position() == old(self).position(),
    {
        let i = self.idx;
        if i < self.buf.len() {
            self.idx = i + 1;
        }
        self.buf.get_mut(i)
    }
}

/// A cursor that owns a [`CircularBuffer`] and hands out its elements
/// front to back.
pub struct IntoIter<T> {
    buf: CircularBuffer<T>,
}

impl<T> IntoIter<T> {
    /// The elements not handed out yet.
    pub closed spec fn view(&self) -> Seq<T> {
        self.buf@
    }

    /// The internal invariant of the cursor.
    pub closed spec fn wf(&self) -> bool {
        self.buf.wf()
    }

    /// The next element, or `None` once every element was handed out.
    pub fn next(&mut self) -> (r: Option<T>)
        requires
            old(self).wf(),
        ensures
            final(self).wf(),
            old(self)@.len() == 0 ==> r is None && final(self)@ == old(self)@,
            old(self)@.len() > 0 ==> r == Some(old(self)@[0])
                && final(self)@ == old(self)@.drop_first(),
    {
        self.buf.pop_front()
    }
}

} // verus!
