use vstd::prelude::*;

verus! {

/// How two values compare.
pub enum Order {
    Less,
    Equal,
    Greater,
}

/// A strict total order on values, with an executable comparison.
pub trait StrictOrder: Sized {
    /// Whether `self` comes before `other`.
    spec fn lt(self, other: Self) -> bool;

    /// No value comes before itself.
    proof fn lemma_irreflexive(x: Self)
        ensures
            !x.lt(x),
    ;

    /// Coming before is transitive.
    proof fn lemma_transitive(x: Self, y: Self, z: Self)
        requires
            x.lt(y),
            y.lt(z),
        ensures
            x.lt(z),
    ;

    /// Compares `self` with `other`.
    fn compare(&self, other: &Self) -> (r: Order)
        ensures
            r is Less <==> self.lt(*other),
            r is Equal <==> *self == *other,
            r is Greater <==> other.lt(*self),
    ;
}

impl StrictOrder for i32 {
    open spec fn lt(self, other: Self) -> bool {
        self < other
    }

    proof fn lemma_irreflexive(x: Self) {
    }

    proof fn lemma_transitive(x: Self, y: Self, z: Self) {
    }

    fn compare(&self, other: &Self) -> (r: Order) {
        if *self < *other {
            Order::Less
        } else if *self == *other {
            Order::Equal
        } else {
            Order::Greater
        }
    }
}

impl StrictOrder for i64 {
    open spec fn lt(self, other: Self) -> bool {
        self < other
    }

    proof fn lemma_irreflexive(x: Self) {
    }

    proof fn lemma_transitive(x: Self, y: Self, z: Self) {
    }

    fn compare(&self, other: &Self) -> (r: Order) {
        if *self < *other {
            Order::Less
        } else if *self == *other {
            Order::Equal
        } else {
            Order::Greater
        }
    }
}

impl StrictOrder for u32 {
    open spec fn lt(self, other: Self) -> bool {
        self < other
    }

    proof fn lemma_irreflexive(x: Self) {
    }

    proof fn lemma_transitive(x: Self, y: Self, z: Self) {
    }

    fn compare(&self, other: &Self) -> (r: Order) {
        if *self < *other {
            Order::Less
        } else if *self == *other {
            Order::Equal
        } else {
            Order::Greater
        }
    }
}

impl StrictOrder for u64 {
    open spec fn lt(self, other: Self) -> bool {
        self < other
    }

    proof fn lemma_irreflexive(x: Self) {
    }

    proof fn lemma_transitive(x: Self, y: Self, z: Self) {
    }

    fn compare(&self, other: &Self) -> (r: Order) {
        if *self < *other {
            Order::Less
        } else if *self == *other {
            Order::Equal
        } else {
            Order::Greater
        }
    }
}

impl StrictOrder for usize {
    open spec fn lt(self, other: Self) -> bool {
        self < other
    }

    proof fn lemma_irreflexive(x: Self) {
    }

    proof fn lemma_transitive(x: Self, y: Self, z: Self) {
    }

    fn compare(&self, other: &Self) -> (r: Order) {
        if *self < *other {
            Order::Less
        } else if *self == *other {
            Order::Equal
        } else {
            Order::Greater
        }
    }
}

/// A link to a subtree.
pub type Link<T> = Option<Box<TreeNode<T>>>;

/// One node of a [`BTree`].
pub struct TreeNode<T> {
    value: T,
    left: Link<T>,
    right: Link<T>,
}

/// The values stored in the subtree at `link`.
pub closed spec fn tree_set<T>(link: Link<T>) -> Set<T>
    decreases link,
{
    match link {
        None => Set::empty(),
        Some(node) => tree_set(node.left).union(tree_set(node.right)).insert(node.value),
    }
}

/// Every value of the left subtree of each node comes before the node's
/// value, which comes before every value of its right subtree.
pub closed spec fn ordered<T: StrictOrder>(link: Link<T>) -> bool
    decreases link,
{
    match link {
        None => true,
        Some(node) => {
            &&& forall|x: T| #[trigger] tree_set(node.left).contains(x) ==> x.lt(node.value)
            &&& forall|x: T| #[trigger] tree_set(node.right).contains(x) ==> node.value.lt(x)
            &&& ordered(node.left)
            &&& ordered(node.right)
        },
    }
}

/// An unbalanced binary search tree holding each value at most once.
pub struct BTree<T> {
    root: Link<T>,
}

impl<T> BTree<T> {
    /// The values stored.
    pub closed spec fn view(&self) -> Set<T> {
        tree_set(self.root)
    }

    /// Whether the tree holds no value.
    pub fn is_empty(&self) -> (r: bool)
        ensures
            r == (self@ == Set::<T>::empty()),
    {
        proof {
            if self.root is Some {
                assert(self@.contains(self.root->0.value));
            }
        }
        self.root.is_none()
    }
}

/// A value that comes before `v` lies in no subtree whose values all come
/// after `v`, and is not `v` itself.
proof fn lemma_not_after<T: StrictOrder>(s: Set<T>, v: T, x: T)
    requires
        x.lt(v),
        forall|y: T| #[trigger] s.contains(y) ==> v.lt(y),
    ensures
        !s.contains(x),
        x != v,
{
    T::lemma_irreflexive(x);
    if s.contains(x) {
        T::lemma_transitive(x, v, x);
    }
}

/// A value that comes after `v` lies in no subtree whose values all come
/// before `v`, and is not `v` itself.
proof fn lemma_not_before<T: StrictOrder>(s: Set<T>, v: T, x: T)
    requires
        v.lt(x),
        forall|y: T| #[trigger] s.contains(y) ==> y.lt(v),
    ensures
        !s.contains(x),
        x != v,
{
    T::lemma_irreflexive(x);
    if s.contains(x) {
        T::lemma_transitive(x, v, x);
    }
}

/// Whether `val` is stored in the subtree at `link`.
fn search<T: StrictOrder>(link: &Link<T>, val: &T) -> (r: bool)
    requires
        ordered(*link),
    ensures
        r == tree_set(*link).contains(*val),
    decreases *link,
{
    match link {
        None => false,
        Some(node) => match val.compare(&node.value) {
            Order::Equal => true,
            Order::Less => {
                proof {
                    lemma_not_after(tree_set(node.right), node.value, *val);
                }
                search(&node.left, val)
            },
            Order::Greater => {
                proof {
                    lemma_not_before(tree_set(node.left), node.value, *val);
                }
                search(&node.right, val)
            },
        },
    }
}

/// Adds `val` as a new leaf of the subtree at `link` unless it is stored
/// already; returns whether it was added.
fn insert_into<T: StrictOrder>(link: &mut Link<T>, val: T) -> (r: bool)
    requires
        ordered(*old(link)),
    ensures
        ordered(*final(link)),
        tree_set(*final(link)) == tree_set(*old(link)).insert(val),
        r == !tree_set(*old(link)).contains(val),
        !r ==> *final(link) == *old(link),
    decreases *old(link),
{
    match link.take() {
        None => {
            *link = Some(Box::new(TreeNode { value: val, left: None, right: None }));
            proof {
                assert(tree_set::<T>(None) == Set::<T>::empty());
                assert(tree_set(*link) =~= Set::<T>::empty().insert(val));
            }
            true
        },
        Some(mut node) => {
            let ghost v = node.value;
            let ghost old_left = tree_set(node.left);
            let ghost old_right = tree_set(node.right);
            let r = match val.compare(&node.value) {
                Order::Equal => false,
                Order::Less => {
                    proof {
                        lemma_not_after(old_right, v, val);
                    }
                    insert_into(&mut node.left, val)
                },
                Order::Greater => {
                    proof {
                        lemma_not_before(old_left, v, val);
                    }
                    insert_into(&mut node.right, val)
                },
            };
            *link = Some(node);
            proof {
                assert(tree_set(*final(link)) =~= tree_set(*old(link)).insert(val));
            }
            r
        },
    }
}

/// Hangs `sub` as the left child of the leftmost node of the non-empty
/// subtree at `link`, the in-order successor position of everything in
/// `sub`.
fn attach_at_successor<T: StrictOrder>(link: &mut Link<T>, sub: Link<T>)
    requires
        *old(link) is Some,
        ordered(*old(link)),
        ordered(sub),
        forall|x: T, y: T|
            #[trigger] tree_set(sub).contains(x) && #[trigger] tree_set(*old(link)).contains(y)
                ==> x.lt(y),
    ensures
        *final(link) is Some,
        ordered(*final(link)),
        tree_set(*final(link)) == tree_set(*old(link)).union(tree_set(sub)),
    decreases *old(link),
{
    let mut node = link.take().unwrap();
    let ghost v = node.value;
    proof {
        assert(tree_set(*old(link)).contains(v));
        assert forall|y: T| #[trigger] tree_set(node.left).contains(y) implies tree_set(
            *old(link),
        ).contains(y) by {}
    }
    if node.left.is_none() {
        node.left = sub;
    } else {
        attach_at_successor(&mut node.left, sub);
    }
    *link = Some(node);
    proof {
        assert(tree_set::<T>(None) == Set::<T>::empty());
        assert(tree_set(*final(link)) =~= tree_set(*old(link)).union(tree_set(sub)));
    }
}

/// Removes `val` from the subtree at `link` and returns it, or returns
/// `None` when it is not stored. A removed node with a right child is
/// replaced by that child, and its left subtree is hung below the in-order
/// successor; otherwise it is replaced by its left child.
fn remove_from<T: StrictOrder>(link: &mut Link<T>, val: &T) -> (r: Option<T>)
    requires
        ordered(*old(link)),
    ensures
        ordered(*final(link)),
        tree_set(*final(link)) == tree_set(*old(link)).remove(*val),
        r == if tree_set(*old(link)).contains(*val) {
            Some(*val)
        } else {
            None::<T>
        },
        !tree_set(*old(link)).contains(*val) ==> *final(link) == *old(link),
    decreases *old(link),
{
    match link.take() {
        None => {
            proof {
                assert(tree_set(*old(link)) =~= tree_set(*old(link)).remove(*val));
            }
            None
        },
        Some(mut node) => {
            let ghost v = node.value;
            let ghost old_left = tree_set(node.left);
            let ghost old_right = tree_set(node.right);
            match val.compare(&node.value) {
                Order::Less => {
                    proof {
                        lemma_not_after(old_right, v, *val);
                    }
                    let r = remove_from(&mut node.left, val);
                    *link = Some(node);
                    proof {
                        assert(tree_set(*final(link)) =~= tree_set(*old(link)).remove(*val));
                    }
                    r
                },
                Order::Greater => {
                    proof {
                        lemma_not_before(old_left, v, *val);
                    }
                    let r = remove_from(&mut node.right, val);
                    *link = Some(node);
                    proof {
                        assert(tree_set(*final(link)) =~= tree_set(*old(link)).remove(*val));
                    }
                    r
                },
                Order::Equal => {
                    let TreeNode { value, left, right } = *node;
                    proof {
                        T::lemma_irreflexive(v);
                        assert(!old_left.contains(v));
                        assert(!old_right.contains(v));
                    }
                    match right {
                        Some(rnode) => {
                            let mut promoted: Link<T> = Some(rnode);
                            if left.is_some() {
                                proof {
                                    assert forall|x: T, y: T|
                                        #[trigger] tree_set(left).contains(x)
                                            && #[trigger] tree_set(promoted).contains(y) implies x.lt(
                                        y,
                                    ) by {
                                        T::lemma_transitive(x, v, y);
                                    }
                                }
                                attach_at_successor(&mut promoted, left);
                            } else {
                                proof {
                                    assert(tree_set::<T>(None) == Set::<T>::empty());
                                }
                            }
                            *link = promoted;
                        },
                        None => {
                            proof {
                                assert(tree_set::<T>(None) == Set::<T>::empty());
                            }
                            *link = left;
                        },
                    }
                    proof {
                        assert(tree_set(*final(link)) =~= tree_set(*old(link)).remove(*val));
                    }
                    Some(value)
                },
            }
        },
    }
}

impl<T: StrictOrder> BTree<T> {
    /// The search-tree order holds.
    pub closed spec fn wf(&self) -> bool {
        ordered(self.root)
    }

    /// Creates an empty tree.
    pub fn new() -> (r: Self)
        ensures
            r.wf(),
            r@ == Set::<T>::empty(),
    {
        BTree { root: None }
    }

    /// Whether `val` is stored.
    pub fn contains(&self, val: &T) -> (r: bool)
        requires
            self.wf(),
        ensures
            r == self@.contains(*val),
    {
        search(&self.root, val)
    }

    /// Adds `val`; returns `false`, changing nothing, when it is stored
    /// already.
    pub fn insert(&mut self, val: T) -> (r: bool)
        requires
            old(self).wf(),
        ensures
            final(self).wf(),
            final(self)@ == old(self)@.insert(val),
            r == !old(self)@.contains(val),
            !r ==> *final(self) == *old(self),
    {
        insert_into(&mut self.root, val)
    }

    /// Removes `val` and returns the stored value, or returns `None` when
    /// it is not stored.
    pub fn remove(&mut self, val: &T) -> (r: Option<T>)
        requires
            old(self).wf(),
        ensures
            final(self).wf(),
            final(self)@ == old(self)@.remove(*val),
            r == if old(self)@.contains(*val) {
                Some(*val)
            } else {
                None::<T>
            },
            !old(self)@.contains(*val) ==> *final(self) == *old(self),
    {
        remove_from(&mut self.root, val)
    }
}

/// After an insert the value is stored, and other values are stored exactly
/// when they were before.
pub proof fn insert_then_contains<T>(values: Set<T>, val: T, other: T)
    ensures
        values.insert(val).contains(val),
        other != val ==> (values.insert(val).contains(other) <==> values.contains(other)),
{
}

/// After a remove the value is not stored, and other values are stored
/// exactly when they were before.
pub proof fn remove_then_not_contains<T>(values: Set<T>, val: T, other: T)
    ensures
        !values.remove(val).contains(val),
        other != val ==> (values.remove(val).contains(other) <==> values.contains(other)),
{
}

/// Inserting a value that is stored already changes nothing, so a second
/// insert of the same value reports a duplicate.
pub proof fn insert_twice_is_duplicate<T>(values: Set<T>, val: T)
    ensures
        values.insert(val).insert(val) == values.insert(val),
        values.insert(val).contains(val),
{
    assert(values.insert(val).insert(val) =~= values.insert(val));
}

/// Removing a value that was just inserted into a tree that did not hold it
/// restores the tree's values.
pub proof fn remove_undoes_insert<T>(values: Set<T>, val: T)
    requires
        !values.contains(val),
    ensures
        values.insert(val).remove(val) == values,
{
    assert(values.insert(val).remove(val) =~= values);
}

impl<T: StrictOrder> Default for BTree<T> {
    /// An empty tree.
    fn default() -> (r: Self)
        ensures
            r.wf(),
            r@ == Set::<T>::empty(),
    {
        BTree::new()
    }
}

} // verus!
