# Verified data structures

A small collection of data structures written in Verus, each with a
mathematical model and contracts proved against it:

- `deque::circular_buffer` — `CircularBuffer<T>`, a fixed-capacity ring
  buffer usable as a double-ended queue, modelled as a `Seq<T>` plus a
  capacity; it can be grown with `resize` or rearranged with
  `make_contiguous`.
- `linked_list::singly` — `SinglyLinkedList<T>`, a stack of boxed nodes,
  modelled as a `Seq<T>` (front first).
- `linked_list::doubly` — `DoublyLinkedList<T>`, a doubly linked list whose
  nodes live in a slot vector and link by index, modelled as a `Seq<T>`.
- `string_pool::string_pool` — `StringPool`, which interns strings and hands
  out stable `StrId`s, modelled as a duplicate-free `Seq<Seq<char>>`. The
  strings live in a `Vec` searched linearly, so `intern` and `contains` take
  linear time. A `HashMap` keyed by `String` was not used: with `String`
  keys, vstd's `HashMap` specification does not let Verus prove even that
  one insert into an empty map gives length 1, so lookups through it could
  not be proved either.
- `string_tools::str_split` — `StrSplit`, which splits a string at every
  occurrence of a delimiter; its contract speaks of UTF-8 bytes.
- `tree::btree` — `BTree<T>`, an unbalanced binary search tree over any type
  with a `StrictOrder`, modelled as a `Set<T>`.
- `sequence_laws` — laws shared by the sequence containers.

Iteration is offered through cursor types with an inherent `next` method.
