//! Laws of the sequence containers (`CircularBuffer`, `DoublyLinkedList`,
//! `SinglyLinkedList`), stated over the sequences their contracts use.
use vstd::prelude::*;

verus! {

/// `pop_back` right after `push_back` hands back the pushed value and
/// restores the contents.
pub proof fn pop_back_undoes_push_back<T>(elems: Seq<T>, val: T)
    ensures
        elems.push(val).len() > 0,
        elems.push(val).last() == val,
        elems.push(val).drop_last() == elems,
{
    assert(elems.push(val).drop_last() =~= elems);
}

/// `pop_front` right after `push_front` hands back the pushed value and
/// restores the contents.
pub proof fn pop_front_undoes_push_front<T>(elems: Seq<T>, val: T)
    ensures
        (seq![val] + elems).len() > 0,
        (seq![val] + elems)[0] == val,
        (seq![val] + elems).drop_first() == elems,
{
    assert((seq![val] + elems).drop_first() =~= elems);
}

/// Pushing to the back does not disturb the front: values leave by
/// `pop_front` in the order they came in by `push_back`.
pub proof fn push_back_keeps_front_order<T>(elems: Seq<T>, val: T)
    requires
        elems.len() > 0,
    ensures
        elems.push(val)[0] == elems[0],
        elems.push(val).drop_first() == elems.drop_first().push(val),
{
    assert(elems.push(val).drop_first() =~= elems.drop_first().push(val));
}

/// Pushing to the front does not disturb the back: values leave by
/// `pop_back` in the order they came in by `push_front`.
pub proof fn push_front_keeps_back_order<T>(elems: Seq<T>, val: T)
    requires
        elems.len() > 0,
    ensures
        (seq![val] + elems).last() == elems.last(),
        (seq![val] + elems).drop_last() == seq![val] + elems.drop_last(),
{
    assert((seq![val] + elems).drop_last() =~= seq![val] + elems.drop_last());
}

/// A stack built by pushing `items` to the front hands them back last
/// first: its front is the last item, and what remains is the stack built
/// from the other items.
pub proof fn stack_pops_last_first<T>(items: Seq<T>)
    requires
        items.len() > 0,
    ensures
        items.reverse()[0] == items.last(),
        items.reverse().drop_first() == items.drop_last().reverse(),
{
    assert(items.reverse().drop_first() =~= items.drop_last().reverse());
}

} // verus!
