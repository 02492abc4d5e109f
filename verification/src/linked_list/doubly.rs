use vstd::prelude::*;

verus! {

/// One cell of a [`DoublyLinkedList`]: a value and the slots of its
/// neighbours.
pub struct DNode<T> {
    value: T,
    prev: Option<usize>,
    next: Option<usize>,
}

/// A doubly linked list of copyable values. The nodes live in a vector of
/// slots and link to each other by slot index; slots left by removed nodes
/// are kept in a free list and reused.
pub struct DoublyLinkedList<T> {
    slots: Vec<Option<DNode<T>>>,
    free: Vec<usize>,
    head: Option<usize>,
    tail: Option<usize>,
    len: usize,
    /// The slots of the nodes, head first.
    order: Ghost<Seq<usize>>,
}

/// The slot before position `i` of `order`.
pub open spec fn prev_in(order: Seq<usize>, i: int) -> Option<usize> {
    if i == 0 {
        None
    } else {
        Some(order[i - 1])
    }
}

/// The slot after position `i` of `order`.
pub open spec fn next_in(order: Seq<usize>, i: int) -> Option<usize> {
    if i + 1 == order.len() {
        None
    } else {
        Some(order[i + 1])
    }
}

/// The first slot of `order`.
pub open spec fn first_in(order: Seq<usize>) -> Option<usize> {
    if order.len() == 0 {
        None
    } else {
        Some(order[0])
    }
}

/// The last slot of `order`.
pub open spec fn last_in(order: Seq<usize>) -> Option<usize> {
    if order.len() == 0 {
        None
    } else {
        Some(order[order.len() - 1])
    }
}

impl<T: Copy> DoublyLinkedList<T> {
    /// The node stored in slot `s`.
    closed spec fn node(&self, s: usize) -> DNode<T> {
        self.slots@[s as int]->0
    }

    /// Position `i` of the list is linked to its neighbours.
    closed spec fn linked_at(&self, i: int) -> bool {
        let s = self.order@[i];
        &&& s < self.slots@.len()
        &&& self.slots@[s as int] is Some
        &&& self.node(s).prev == prev_in(self.order@, i)
        &&& self.node(s).next == next_in(self.order@, i)
    }

    /// The internal invariant of the list.
    pub closed spec fn wf(&self) -> bool {
        &&& self.order@.len() == self.len
        &&& self.order@.no_duplicates()
        &&& forall|i: int| 0 <= i < self.len ==> #[trigger] self.linked_at(i)
        &&& self.head == first_in(self.order@)
        &&& self.tail == last_in(self.order@)
        &&& self.free@.no_duplicates()
        &&& forall|j: int|
            0 <= j < self.free@.len() ==> #[trigger] self.free@[j] < self.slots@.len()
                && self.slots@[self.free@[j] as int] is None
        &&& self.len + self.free@.len() == self.slots@.len()
        &&& self.slots@.len() <= usize::MAX
    }

    /// The values, head first.
    pub closed spec fn view(&self) -> Seq<T> {
        Seq::new(self.len as nat, |i: int| self.node(self.order@[i]).value)
    }

    /// Creates an empty list.
    pub fn new() -> (r: Self)
        ensures
            r.wf(),
            r@ == Seq::<T>::empty(),
    {
        DoublyLinkedList {
            slots: Vec::new(),
            free: Vec::new(),
            head: None,
            tail: None,
            len: 0,
            order: Ghost(Seq::empty()),
        }
    }

    /// The number of values.
    pub fn len(&self) -> (r: usize)
        requires
            self.wf(),
        ensures
            r == self@.len(),
    {
        self.len
    }

    /// Whether the list holds no value.
    pub fn is_empty(&self) -> (r: bool)
        requires
            self.wf(),
        ensures
            r == (self@.len() == 0),
    {
        self.len == 0
    }

    /// A copy of the node in slot `s`.
    fn read_node(&self, s: usize) -> (r: DNode<T>)
        requires
            s < self.slots@.len(),
            self.slots@[s as int] is Some,
        ensures
            r == self.node(s),
    {
        match &self.slots[s] {
            Some(n) => DNode { value: n.value, prev: n.prev, next: n.next },
            None => unreached(),
        }
    }

    /// Stores `node` in a slot that no node of the list uses and returns the
    /// slot.
    fn take_slot(&mut self, node: DNode<T>) -> (s: usize)
        requires
            old(self).wf(),
        ensures
            final(self).order == old(self).order,
            final(self).head == old(self).head,
            final(self).tail == old(self).tail,
            final(self).len == old(self).len,
            !old(self).order@.contains(s),
            s < final(self).slots@.len(),
            final(self).slots@[s as int] == Some(node),
            final(self).slots@.len() >= old(self).slots@.len(),
            forall|t: int|
                0 <= t < old(self).slots@.len() && t != s ==> #[trigger] final(self).slots@[t]
                    == old(self).slots@[t],
            final(self).free@.no_duplicates(),
            forall|j: int|
                0 <= j < final(self).free@.len() ==> #[trigger] final(self).free@[j]
                    < final(self).slots@.len() && final(self).slots@[final(self).free@[j] as int] is None,
            final(self).len + 1 + final(self).free@.len() == final(self).slots@.len(),
            final(self).slots@.len() <= usize::MAX,
    {
        proof {
            assert forall|i: int| 0 <= i < self.len implies self.order@[i] < self.slots@.len()
                && self.slots@[self.order@[i] as int] is Some by {
                assert(self.linked_at(i));
            }
        }
        match self.free.pop() {
            Some(s) => {
                proof {
                    assert(old(self).free@[old(self).free@.len() - 1] == s);
                    assert forall|j: int| 0 <= j < self.free@.len() implies self.free@[j] != s by {
                        assert(old(self).free@[j] == self.free@[j]);
                    }
                }
                self.slots.set(s, Some(node));
                s
            },
            None => {
                self.slots.push(Some(node));
                self.slots.len() - 1
            },
        }
    }

    /// Points the node in slot `s` forward to `nx`.
    fn set_next(&mut self, s: usize, nx: Option<usize>)
        requires
            s < old(self).slots@.len(),
            old(self).slots@[s as int] is Some,
        ensures
            final(self).slots@ == old(self).slots@.update(
                s as int,
                Some(DNode { value: old(self).node(s).value, prev: old(self).node(s).prev, next: nx }),
            ),
            final(self).free == old(self).free,
            final(self).order == old(self).order,
            final(self).head == old(self).head,
            final(self).tail == old(self).tail,
            final(self).len == old(self).len,
    {
        let n = self.read_node(s);
        self.slots.set(s, Some(DNode { value: n.value, prev: n.prev, next: nx }));
    }

    /// Points the node in slot `s` back to `pv`.
    fn set_prev(&mut self, s: usize, pv: Option<usize>)
        requires
            s < old(self).slots@.len(),
            old(self).slots@[s as int] is Some,
        ensures
            final(self).slots@ == old(self).slots@.update(
                s as int,
                Some(DNode { value: old(self).node(s).value, prev: pv, next: old(self).node(s).next }),
            ),
            final(self).free == old(self).free,
            final(self).order == old(self).order,
            final(self).head == old(self).head,
            final(self).tail == old(self).tail,
            final(self).len == old(self).len,
    {
        let n = self.read_node(s);
        self.slots.set(s, Some(DNode { value: n.value, prev: pv, next: n.next }));
    }

    /// Appends `val` after the last value.
    pub fn push_back(&mut self, val: T)
        requires
            old(self).wf(),
        ensures
            final(self).wf(),
            final(self)@ == old(self)@.push(val),
    {
        let s = self.take_slot(DNode { value: val, prev: self.tail, next: None });
        match self.tail {
            Some(t) => {
                proof {
                    assert(old(self).linked_at(old(self).len - 1));
                }
                self.set_next(t, Some(s));
            },
            None => {
                self.head = Some(s);
            },
        }
        self.tail = Some(s);
        self.len = self.len + 1;
        proof {
            self.order@ = self.order@.push(s);
            let n = old(self).len as int;
            assert forall|i: int| 0 <= i < self.len implies #[trigger] self.linked_at(i) by {
                if i < n {
                    assert(old(self).linked_at(i));
                    assert(self.order@[i] == old(self).order@[i]);
                    assert(self.order@[i] != s);
                    if i + 1 < n {
                        assert(self.order@[i] != self.order@[n - 1]);
                    }
                }
            }
            assert(self.order@.no_duplicates());
            assert forall|i: int| 0 <= i < n implies #[trigger] self.view()[i]
                == old(self).view()[i] by {
                assert(old(self).linked_at(i));
                assert(self.order@[i] != s);
                if i + 1 < n {
                    assert(self.order@[i] != self.order@[n - 1]);
                }
            }
            assert(self.view() =~= old(self).view().push(val));
        }
    }

    /// Puts `val` before the first value.
    pub fn push_front(&mut self, val: T)
        requires
            old(self).wf(),
        ensures
            final(self).wf(),
            final(self)@ == seq![val] + old(self)@,
    {
        let s = self.take_slot(DNode { value: val, prev: None, next: self.head });
        match self.head {
            Some(h) => {
                proof {
                    assert(old(self).linked_at(0));
                }
                self.set_prev(h, Some(s));
            },
            None => {
                self.tail = Some(s);
            },
        }
        self.head = Some(s);
        self.len = self.len + 1;
        proof {
            self.order@ = seq![s] + self.order@;
            let n = old(self).len as int;
            assert forall|i: int| 0 <= i < self.len implies #[trigger] self.linked_at(i) by {
                if i > 0 {
                    assert(old(self).linked_at(i - 1));
                    assert(self.order@[i] == old(self).order@[i - 1]);
                    assert(self.order@[i] != s);
                    if i > 1 {
                        assert(self.order@[i] != self.order@[1]);
                    }
                }
            }
            assert(self.order@.no_duplicates());
            assert forall|k: int| 1 <= k <= n implies #[trigger] self.view()[k]
                == old(self).view()[k - 1] by {
                assert(old(self).linked_at(k - 1));
                assert(self.order@[k] != s);
                if k > 1 {
                    assert(self.order@[k] != self.order@[1]);
                }
            }
            if n > 0 {
                assert(old(self).order@[0] != s);
            }
            assert(self.view()[0] == val);
            assert(self.view() =~= seq![val] + old(self).view());
        }
    }

    /// Removes and returns the first value, or `None` when empty.
    pub fn pop_front(&mut self) -> (r: Option<T>)
        requires
            old(self).wf(),
        ensures
            final(self).wf(),
            old(self)@.len() == 0 ==> r is None && final(self)@ == old(self)@,
            old(self)@.len() > 0 ==> r == Some(old(self)@[0])
                && final(self)@ == old(self)@.drop_first(),
    {
        match self.head {
            None => None,
            Some(h) => {
                proof {
                    assert(self.linked_at(0));
                }
                let n = self.read_node(h);
                self.slots.set(h, None);
                proof {
                    assert forall|j: int| 0 <= j < self.free@.len() implies self.free@[j] != h by {
                        assert(old(self).slots@[old(self).free@[j] as int] is None);
                    }
                }
                self.free.push(h);
                match n.next {
                    Some(nh) => {
                        proof {
                            assert(old(self).linked_at(1));
                        }
                        self.set_prev(nh, None);
                        self.head = Some(nh);
                    },
                    None => {
                        self.head = None;
                        self.tail = None;
                    },
                }
                self.len = self.len - 1;
                proof {
                    self.order@ = self.order@.drop_first();
                    let m = self.len as int;
                    assert forall|i: int| 0 <= i < m implies #[trigger] self.linked_at(i) by {
                        assert(old(self).linked_at(i + 1));
                        assert(self.order@[i] == old(self).order@[i + 1]);
                        assert(old(self).order@[i + 1] != h);
                        if i > 0 {
                            assert(old(self).order@[i + 1] != old(self).order@[1]);
                        }
                    }
                    assert forall|j: int| 0 <= j < self.free@.len() implies #[trigger] self.free@[j]
                        < self.slots@.len() && self.slots@[self.free@[j] as int] is None by {
                        if j + 1 < self.free@.len() {
                            assert(self.free@[j] == old(self).free@[j]);
                            if m > 0 {
                                assert(old(self).linked_at(1));
                                assert(self.free@[j] != old(self).order@[1]);
                            }
                        }
                    }
                    assert forall|i: int| 0 <= i < m implies #[trigger] self.view()[i]
                        == old(self).view()[i + 1] by {
                        assert(old(self).linked_at(i + 1));
                        assert(old(self).order@[i + 1] != h);
                        if i > 0 {
                            assert(old(self).order@[i + 1] != old(self).order@[1]);
                        }
                    }
                    assert(self.view() =~= old(self).view().drop_first());
                }
                Some(n.value)
            },
        }
    }

    /// Removes and returns the last value, or `None` when empty.
    pub fn pop_back(&mut self) -> (r: Option<T>)
        requires
            old(self).wf(),
        ensures
            final(self).wf(),
            old(self)@.len() == 0 ==> r is None && final(self)@ == old(self)@,
            old(self)@.len() > 0 ==> r == Some(old(self)@.last())
                && final(self)@ == old(self)@.drop_last(),
    {
        match self.tail {
            None => None,
            Some(t) => {
                let ghost n = self.len as int;
                proof {
                    assert(self.linked_at(n - 1));
                }
                let nd = self.read_node(t);
                self.slots.set(t, None);
                proof {
                    assert forall|j: int| 0 <= j < self.free@.len() implies self.free@[j] != t by {
                        assert(old(self).slots@[old(self).free@[j] as int] is None);
                    }
                }
                self.free.push(t);
                match nd.prev {
                    Some(nt) => {
                        proof {
                            assert(old(self).linked_at(n - 2));
                        }
                        self.set_next(nt, None);
                        self.tail = Some(nt);
                    },
                    None => {
                        self.head = None;
                        self.tail = None;
                    },
                }
                self.len = self.len - 1;
                proof {
                    self.order@ = self.order@.drop_last();
                    let m = self.len as int;
                    assert forall|i: int| 0 <= i < m implies #[trigger] self.linked_at(i) by {
                        assert(old(self).linked_at(i));
                        assert(old(self).order@[i] != t);
                        if i < m - 1 {
                            assert(old(self).order@[i] != old(self).order@[m - 1]);
                        }
                    }
                    assert forall|j: int| 0 <= j < self.free@.len() implies #[trigger] self.free@[j]
                        < self.slots@.len() && self.slots@[self.free@[j] as int] is None by {
                        if j + 1 < self.free@.len() {
                            assert(self.free@[j] == old(self).free@[j]);
                            if m > 0 {
                                assert(old(self).linked_at(m - 1));
                                assert(self.free@[j] != old(self).order@[m - 1]);
                            }
                        }
                    }
                    assert forall|i: int| 0 <= i < m implies #[trigger] self.view()[i]
                        == old(self).view()[i] by {
                        assert(old(self).linked_at(i));
                        assert(old(self).order@[i] != t);
                        if i < m - 1 {
                            assert(old(self).order@[i] != old(self).order@[m - 1]);
                        }
                    }
                    assert(self.view() =~= old(self).view().drop_last());
                }
                Some(nd.value)
            },
        }
    }

    /// A reference to the first value, or `None` when empty.
    pub fn peek_front(&self) -> (r: Option<&T>)
        requires
            self.wf(),
        ensures
            self@.len() == 0 ==> r is None,
            self@.len() > 0 ==> r == Some(&self@[0]),
    {
        match self.head {
            None => None,
            Some(h) => {
                proof {
                    assert(self.linked_at(0));
                }
                match &self.slots[h] {
                    Some(n) => Some(&n.value),
                    None => None,
                }
            },
        }
    }

    /// A reference to the last value, or `None` when empty.
    pub fn peek_back(&self) -> (r: Option<&T>)
        requires
            self.wf(),
        ensures
            self@.len() == 0 ==> r is None,
            self@.len() > 0 ==> r == Some(&self@.last()),
    {
        match self.tail {
            None => None,
            Some(t) => {
                proof {
                    assert(self.linked_at(self.len - 1));
                }
                match &self.slots[t] {
                    Some(n) => Some(&n.value),
                    None => None,
                }
            },
        }
    }

    /// Builds a list holding `items` in order, pushing each to the back.
    pub fn from_iter(items: Vec<T>) -> (r: Self)
        ensures
            r.wf(),
            r@ == items@,
    {
        let mut list = DoublyLinkedList::new();
        let mut i: usize = 0;
        while i < items.len()
            invariant
                i <= items@.len(),
                list.wf(),
                list@ == items@.take(i as int),
            decreases items@.len() - i,
        {
            list.push_back(items[i]);
            i = i + 1;
            proof {
                assert(items@.take(i as int) =~= items@.take(i - 1).push(items@[i - 1]));
            }
        }
        proof {
            assert(items@.take(i as int) =~= items@);
        }
        list
    }

    /// A cursor that hands out copies of the values, head first.
    pub fn iter(&self) -> (r: DoublyIter<'_, T>)
        requires
            self.wf(),
        ensures
            r.wf(),
            r.elements() == self@,
            r.position() == 0,
    {
        DoublyIter { list: self, next: self.head, pos: Ghost(0) }
    }

    /// Moves the list into a cursor that hands out its values from either
    /// end. The two ends are walked independently of each other.
    pub fn into_iter(self) -> (r: DoublyIntoIter<T>)
        requires
            self.wf(),
        ensures
            r.wf(),
            r.elements() == self@,
            r.front_taken() == 0,
            r.back_taken() == 0,
    {
        let next = self.head;
        let prev = self.tail;
        DoublyIntoIter { list: self, next, prev, front: Ghost(0), back: Ghost(0) }
    }
}

/// A cursor over the values of a [`DoublyLinkedList`], head first.
pub struct DoublyIter<'a, T> {
    list: &'a DoublyLinkedList<T>,
    next: Option<usize>,
    pos: Ghost<nat>,
}

impl<'a, T: Copy> DoublyIter<'a, T> {
    /// The values the cursor walks over.
    pub closed spec fn elements(&self) -> Seq<T> {
        self.list@
    }

    /// How many values were handed out so far.
    pub closed spec fn position(&self) -> nat {
        self.pos@
    }

    /// The internal invariant of the cursor.
    pub closed spec fn wf(&self) -> bool {
        &&& self.list.wf()
        &&& self.pos@ <= self.list.len
        &&& self.next == (if self.pos@ < self.list.len {
            Some(self.list.order@[self.pos@ as int])
        } else {
            None
        })
    }

    /// The next value, or `None` once every value was handed out.
    pub fn next(&mut self) -> (r: Option<T>)
        requires
            old(self).wf(),
        ensures
            final(self).wf(),
            final(self).elements() == old(self).elements(),
            old(self).position() < old(self).elements().len() ==> r == Some(
                old(self).elements()[old(self).position() as int],
            ) && final(self).position() == old(self).position() + 1,
            old(self).position() >= old(self).elements().len() ==> r is None
                && final(self).position() == old(self).position(),
    {
        match self.next {
            None => None,
            Some(s) => {
                proof {
                    assert(self.list.linked_at(self.pos@ as int));
                }
                let n = self.list.read_node(s);
                self.next = n.next;
                self.pos = Ghost(self.pos@ + 1);
                Some(n.value)
            },
        }
    }
}

/// A cursor that owns a [`DoublyLinkedList`] and hands out its values from
/// either end; the front and the back are walked independently.
pub struct DoublyIntoIter<T> {
    list: DoublyLinkedList<T>,
    next: Option<usize>,
    prev: Option<usize>,
    front: Ghost<nat>,
    back: Ghost<nat>,
}

impl<T: Copy> DoublyIntoIter<T> {
    /// The values the cursor walks over.
    pub closed spec fn elements(&self) -> Seq<T> {
        self.list@
    }

    /// How many values were handed out from the front.
    pub closed spec fn front_taken(&self) -> nat {
        self.front@
    }

    /// How many values were handed out from the back.
    pub closed spec fn back_taken(&self) -> nat {
        self.back@
    }

    /// The internal invariant of the cursor.
    pub closed spec fn wf(&self) -> bool {
        let n = self.list.len as int;
        &&& self.list.wf()
        &&& self.front@ <= n
        &&& self.back@ <= n
        &&& self.next == (if self.front@ < n {
            Some(self.list.order@[self.front@ as int])
        } else {
            None
        })
        &&& self.prev == (if self.back@ < n {
            Some(self.list.order@[n - 1 - self.back@])
        } else {
            None
        })
    }

    /// The next value from the front, or `None` once the front cursor has
    /// passed the last value.
    pub fn next(&mut self) -> (r: Option<T>)
        requires
            old(self).wf(),
        ensures
            final(self).wf(),
            final(self).elements() == old(self).elements(),
            final(self).back_taken() == old(self).back_taken(),
            old(self).front_taken() < old(self).elements().len() ==> r == Some(
                old(self).elements()[old(self).front_taken() as int],
            ) && final(self).front_taken() == old(self).front_taken() + 1,
            old(self).front_taken() >= old(self).elements().len() ==> r is None
                && final(self).front_taken() == old(self).front_taken(),
    {
        match self.next {
            None => None,
            Some(s) => {
                proof {
                    assert(self.list.linked_at(self.front@ as int));
                }
                let n = self.list.read_node(s);
                self.next = n.next;
                self.front = Ghost(self.front@ + 1);
                Some(n.value)
            },
        }
    }

    /// The next value from the back, or `None` once the back cursor has
    /// passed the first value.
    pub fn next_back(&mut self) -> (r: Option<T>)
        requires
            old(self).wf(),
        ensures
            final(self).wf(),
            final(self).elements() == old(self).elements(),
            final(self).front_taken() == old(self).front_taken(),
            old(self).back_taken() < old(self).elements().len() ==> r == Some(
                old(self).elements()[old(self).elements().len() - 1 - old(self).back_taken()],
            ) && final(self).back_taken() == old(self).back_taken() + 1,
            old(self).back_taken() >= old(self).elements().len() ==> r is None
                && final(self).back_taken() == old(self).back_taken(),
    {
        match self.prev {
            None => None,
            Some(s) => {
                proof {
                    assert(self.list.linked_at(self.list.len - 1 - self.back@));
                }
                let n = self.list.read_node(s);
                self.prev = n.prev;
                self.back = Ghost(self.back@ + 1);
                Some(n.value)
            },
        }
    }
}

impl<T: Copy> Default for DoublyLinkedList<T> {
    /// An empty list.
    fn default() -> (r: Self)
        ensures
            r.wf(),
            r@ == Seq::<T>::empty(),
    {
        DoublyLinkedList::new()
    }
}

} // verus!
