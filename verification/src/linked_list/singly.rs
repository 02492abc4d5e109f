use vstd::prelude::*;

verus! {

/// A link to the rest of a list.
pub type Link<T> = Option<Box<Node<T>>>;

/// One cell of a [`SinglyLinkedList`].
pub struct Node<T> {
    value: T,
    next: Link<T>,
}

/// The values reachable from `link`, in list order.
pub closed spec fn link_view<T>(link: Link<T>) -> Seq<T>
    decreases link,
{
    match link {
        None => Seq::empty(),
        Some(node) => seq![node.value] + link_view(node.next),
    }
}

/// A stack of values kept in a chain of boxed nodes: the last value pushed
/// sits at the front.
pub struct SinglyLinkedList<T> {
    root: Link<T>,
}

impl<T> SinglyLinkedList<T> {
    /// The values, front first.
    pub closed spec fn view(&self) -> Seq<T> {
        link_view(self.root)
    }

    /// Creates an empty list.
    pub fn new() -> (r: Self)
        ensures
            r@ == Seq::<T>::empty(),
    {
        SinglyLinkedList { root: None }
    }

    /// Puts `val` at the front.
    pub fn push_front(&mut self, val: T)
        ensures
            final(self)@ == seq![val] + old(self)@,
    {
        let tmp = self.root.take();
        self.root = Some(Box::new(Node { value: val, next: tmp }));
    }

    /// Removes and returns the front value, or `None` when empty.
    pub fn pop_front(&mut self) -> (r: Option<T>)
        ensures
            old(self)@.len() == 0 ==> r is None && final(self)@ == old(self)@,
            old(self)@.len() > 0 ==> r == Some(old(self)@[0])
                && final(self)@ == old(self)@.drop_first(),
    {
        match self.root.take() {
            None => None,
            Some(boxed) => {
                let node = *boxed;
                self.root = node.next;
                proof {
                    assert(old(self)@ =~= seq![node.value] + self@);
                }
                Some(node.value)
            },
        }
    }

    /// A reference to the front value, or `None` when empty.
    pub fn peek_front(&self) -> (r: Option<&T>)
        ensures
            self@.len() == 0 ==> r is None,
            self@.len() > 0 ==> r == Some(&self@[0]),
    {
        match &self.root {
            None => None,
            Some(node) => Some(&node.value),
        }
    }

    /// Whether the list holds no value.
    pub fn is_empty(&self) -> (r: bool)
        ensures
            r == (self@.len() == 0),
    {
        self.root.is_none()
    }

    /// A cursor that hands out references to the values, front first.
    pub fn iter(&self) -> (r: Iter<'_, T>)
        ensures
            r@ == self@,
    {
        Iter { curr: &self.root }
    }

    /// Moves the list into a cursor that hands out its values, front first.
    pub fn into_iter(self) -> (r: IntoIter<T>)
        ensures
            r@ == self@,
    {
        IntoIter { curr: self.root }
    }

    /// Builds a list by pushing `items` to the front one after the other, so
    /// that the last item ends up at the front.
    pub fn from_iter(items: Vec<T>) -> (r: Self)
        ensures
            r@ == items@.reverse(),
    {
        let ghost all = items@;
        let n = items.len();
        let mut items = items;
        let mut reversed: Vec<T> = Vec::new();
        while items.len() > 0
            invariant
                n == all.len(),
                items@ == all.take(items@.len() as int),
                reversed@.len() == n - items@.len(),
                forall|j: int|
                    0 <= j < reversed@.len() ==> #[trigger] reversed@[j] == all[n - 1 - j],
            decreases items@.len(),
        {
            let x = items.pop().unwrap();
            reversed.push(x);
        }
        let mut list = SinglyLinkedList::new();
        while reversed.len() > 0
            invariant
                n == all.len(),
                reversed@.len() <= n,
                forall|j: int|
                    0 <= j < reversed@.len() ==> #[trigger] reversed@[j] == all[n - 1 - j],
                list@ == all.take(n - reversed@.len()).reverse(),
            decreases reversed@.len(),
        {
            let x = reversed.pop().unwrap();
            list.push_front(x);
            proof {
                let k = n - reversed@.len();
                assert(list@ =~= all.take(k).reverse());
            }
        }
        proof {
            assert(all.take(n as int) =~= all);
        }
        list
    }
}

/// A cursor over the values of a [`SinglyLinkedList`], front first.
pub struct Iter<'a, T> {
    curr: &'a Link<T>,
}

impl<'a, T> Iter<'a, T> {
    /// The values not handed out yet.
    pub closed spec fn view(&self) -> Seq<T> {
        link_view(*self.curr)
    }

    /// The next value, or `None` once every value was handed out.
    pub fn next(&mut self) -> (r: Option<&'a T>)
        ensures
            old(self)@.len() == 0 ==> r is None && final(self)@ == old(self)@,
            old(self)@.len() > 0 ==> r == Some(&old(self)@[0])
                && final(self)@ == old(self)@.drop_first(),
    {
        match self.curr {
            None => None,
            Some(node) => {
                self.curr = &node.next;
                proof {
                    assert(old(self)@ =~= seq![node.value] + self@);
                }
                Some(&node.value)
            },
        }
    }
}

/// A cursor that owns the nodes of a [`SinglyLinkedList`] and hands out its
/// values, front first.
pub struct IntoIter<T> {
    curr: Link<T>,
}

impl<T> IntoIter<T> {
    /// The values not handed out yet.
    pub closed spec fn view(&self) -> Seq<T> {
        link_view(self.curr)
    }

    /// The next value, or `None` once every value was handed out.
    pub fn next(&mut self) -> (r: Option<T>)
        ensures
            old(self)@.len() == 0 ==> r is None && final(self)@ == old(self)@,
            old(self)@.len() > 0 ==> r == Some(old(self)@[0])
                && final(self)@ == old(self)@.drop_first(),
    {
        match self.curr.take() {
            None => None,
            Some(boxed) => {
                let node = *boxed;
                self.curr = node.next;
                proof {
                    assert(old(self)@ =~= seq![node.value] + self@);
                }
                Some(node.value)
            },
        }
    }
}

impl<T> Default for SinglyLinkedList<T> {
    /// An empty list.
    fn default() -> (r: Self)
        ensures
            r@ == Seq::<T>::empty(),
    {
        SinglyLinkedList::new()
    }
}

} // verus!
