//! Interns strings and hands out stable numeric identifiers.
//!
//! A `StringPool` stores each distinct string once and returns a compact
//! `StrId` that can be copied, compared and stored cheaply. Removing strings
//! is not supported.
use vstd::prelude::*;
use vstd::std_specs::iter::IteratorSpec;

verus! {

broadcast use vstd::std_specs::vec::axiom_spec_into_iter;

/// The strings of `items` in order of first occurrence, each once.
pub open spec fn first_occurrences(items: Seq<Seq<char>>) -> Seq<Seq<char>>
    decreases items.len(),
{
    if items.len() == 0 {
        Seq::empty()
    } else {
        let before = first_occurrences(items.drop_last());
        if before.contains(items.last()) {
            before
        } else {
            before.push(items.last())
        }
    }
}

/// Identifier of an interned string: its position in the pool that made it.
#[derive(Clone, Copy, Debug, PartialEq, Eq, Structural, Hash)]
pub struct StrId(pub usize);

/// The decimal digit `d` as a character.
pub open spec fn digit_char(d: nat) -> char {
    (48 + d) as char
}

/// The decimal notation of `n`, without leading zeros.
pub open spec fn decimal(n: nat) -> Seq<char>
    decreases n,
{
    if n < 10 {
        seq![digit_char(n)]
    } else {
        decimal(n / 10).push(digit_char(n % 10))
    }
}

/// The one-character string of the decimal digit `d`.
fn digit_str(d: usize) -> (r: &'static str)
    requires
        d < 10,
    ensures
        r@ == seq![digit_char(d as nat)],
{
    proof {
        reveal_strlit("0");
        reveal_strlit("1");
        reveal_strlit("2");
        reveal_strlit("3");
        reveal_strlit("4");
        reveal_strlit("5");
        reveal_strlit("6");
        reveal_strlit("7");
        reveal_strlit("8");
        reveal_strlit("9");
    }
    match d {
        0 => "0",
        1 => "1",
        2 => "2",
        3 => "3",
        4 => "4",
        5 => "5",
        6 => "6",
        7 => "7",
        8 => "8",
        _ => "9",
    }
}

/// The decimal notation of `n`.
fn decimal_string(n: usize) -> (r: String)
    ensures
        r@ == decimal(n as nat),
    decreases n,
{
    if n < 10 {
        String::from_str(digit_str(n))
    } else {
        let mut s = decimal_string(n / 10);
        s.append(digit_str(n % 10));
        s
    }
}

/// The strings after interning `s` into a pool holding `strings`, and the
/// identifier `s` gets: its position if it is there already, else the next
/// free position, where it is appended.
pub open spec fn intern_result(strings: Seq<Seq<char>>, s: Seq<char>) -> (Seq<Seq<char>>, int) {
    if strings.contains(s) {
        (strings, strings.index_of(s))
    } else {
        (strings.push(s), strings.len() as int)
    }
}

/// In a list without duplicates, the position of a string is its only one.
proof fn lemma_index_unique(strings: Seq<Seq<char>>, s: Seq<char>, i: int)
    requires
        strings.no_duplicates(),
        0 <= i < strings.len(),
        strings[i] == s,
    ensures
        strings.index_of(s) == i,
{
    assert(strings.contains(s));
    let j = strings.index_of(s);
    assert(0 <= j < strings.len() && strings[j] == s);
}

/// Interning keeps every string stored once.
pub proof fn intern_keeps_strings_unique(strings: Seq<Seq<char>>, s: Seq<char>)
    requires
        strings.no_duplicates(),
    ensures
        intern_result(strings, s).0.no_duplicates(),
{
}

/// The identifier that interning hands out stands for the interned string.
pub proof fn intern_then_resolve(strings: Seq<Seq<char>>, s: Seq<char>)
    ensures
        0 <= intern_result(strings, s).1 < intern_result(strings, s).0.len(),
        intern_result(strings, s).0[intern_result(strings, s).1] == s,
{
}

/// Interning a string a second time changes nothing and hands out the same
/// identifier.
pub proof fn intern_is_idempotent(strings: Seq<Seq<char>>, s: Seq<char>)
    requires
        strings.no_duplicates(),
    ensures
        intern_result(intern_result(strings, s).0, s) == intern_result(strings, s),
{
    let (after, id) = intern_result(strings, s);
    assert(after[id] == s);
    assert(after.contains(s));
    lemma_index_unique(after, s, id);
}

/// Interning never changes the string an existing identifier stands for.
pub proof fn identifiers_are_stable(strings: Seq<Seq<char>>, s: Seq<char>, id: int)
    requires
        0 <= id < strings.len(),
    ensures
        id < intern_result(strings, s).0.len(),
        intern_result(strings, s).0[id] == strings[id],
{
}

/// The strings after interning each of `later` in order, starting from a
/// pool holding `strings`.
pub open spec fn intern_all(strings: Seq<Seq<char>>, later: Seq<Seq<char>>) -> Seq<Seq<char>>
    decreases later.len(),
{
    if later.len() == 0 {
        strings
    } else {
        intern_result(intern_all(strings, later.drop_last()), later.last()).0
    }
}

/// Any number of later interns leave every existing identifier standing for
/// the string it stood for.
pub proof fn identifiers_survive_interns(strings: Seq<Seq<char>>, later: Seq<Seq<char>>, id: int)
    requires
        0 <= id < strings.len(),
    ensures
        id < intern_all(strings, later).len(),
        intern_all(strings, later)[id] == strings[id],
    decreases later.len(),
{
    if later.len() > 0 {
        identifiers_survive_interns(strings, later.drop_last(), id);
        identifiers_are_stable(intern_all(strings, later.drop_last()), later.last(), id);
    }
}

/// The identifier that interning `s` hands out keeps resolving to `s`
/// through any number of later interns.
pub proof fn intern_then_resolve_after_later_interns(
    strings: Seq<Seq<char>>,
    s: Seq<char>,
    later: Seq<Seq<char>>,
)
    ensures
        0 <= intern_result(strings, s).1 < intern_all(intern_result(strings, s).0, later).len(),
        intern_all(intern_result(strings, s).0, later)[intern_result(strings, s).1] == s,
{
    intern_then_resolve(strings, s);
    identifiers_survive_interns(intern_result(strings, s).0, later, intern_result(strings, s).1);
}

/// A pool built from `items` holds every item's string, holds nothing
/// else, holds each string once and so has at most as many strings as there
/// are items.
pub proof fn pool_from_items_holds_exactly_the_items(items: Seq<Seq<char>>)
    ensures
        forall|i: int| 0 <= i < items.len() ==> first_occurrences(items).contains(#[trigger] items[i]),
        forall|j: int|
            0 <= j < first_occurrences(items).len() ==> items.contains(
                #[trigger] first_occurrences(items)[j],
            ),
        first_occurrences(items).no_duplicates(),
        first_occurrences(items).len() <= items.len(),
    decreases items.len(),
{
    if items.len() > 0 {
        let init = items.drop_last();
        pool_from_items_holds_exactly_the_items(init);
        let before = first_occurrences(init);
        assert forall|i: int| 0 <= i < items.len() implies first_occurrences(items).contains(
            #[trigger] items[i],
        ) by {
            if i < items.len() - 1 {
                assert(init[i] == items[i]);
                assert(before.contains(init[i]));
                if !before.contains(items.last()) {
                    let w = choose|w: int| 0 <= w < before.len() && before[w] == items[i];
                    assert(before.push(items.last())[w] == items[i]);
                }
            } else {
                if !before.contains(items.last()) {
                    assert(before.push(items.last())[before.len() as int] == items[i]);
                }
            }
        }
        assert forall|j: int| 0 <= j < first_occurrences(items).len() implies items.contains(
            #[trigger] first_occurrences(items)[j],
        ) by {
            if j < before.len() {
                assert(first_occurrences(items)[j] == before[j]);
                assert(init.contains(before[j]));
                let w = choose|w: int| 0 <= w < init.len() && init[w] == before[j];
                assert(items[w] == init[w]);
            } else {
                assert(first_occurrences(items)[j] == items[items.len() - 1]);
            }
        }
    }
}

/// Building a pool from `items` gives what interning the items one after
/// the other into an empty pool gives.
pub proof fn interning_in_order_keeps_first_occurrences(items: Seq<Seq<char>>)
    ensures
        intern_all(Seq::empty(), items) == first_occurrences(items),
    decreases items.len(),
{
    if items.len() > 0 {
        interning_in_order_keeps_first_occurrences(items.drop_last());
    }
}

/// Two different strings get two different identifiers.
pub proof fn distinct_strings_get_distinct_ids(
    strings: Seq<Seq<char>>,
    s: Seq<char>,
    t: Seq<char>,
)
    requires
        strings.no_duplicates(),
        s != t,
    ensures
        intern_result(strings, s).1 != intern_result(intern_result(strings, s).0, t).1,
{
    let (p1, i) = intern_result(strings, s);
    let (p2, j) = intern_result(p1, t);
    intern_then_resolve(strings, s);
    intern_then_resolve(p1, t);
    identifiers_are_stable(p1, t, i);
}

/// Owns a list of distinct strings; a string's identifier is its position.
pub struct StringPool {
    strings: Vec<String>,
}

impl StringPool {
    /// The interned strings, by identifier.
    pub closed spec fn view(&self) -> Seq<Seq<char>> {
        self.strings@.map_values(|s: String| s@)
    }

    /// No string is stored twice.
    pub closed spec fn wf(&self) -> bool {
        self@.no_duplicates()
    }

    /// Each string is stored once: no two identifiers stand for the same
    /// string.
    pub proof fn strings_are_distinct(&self)
        requires
            self.wf(),
        ensures
            self@.no_duplicates(),
    {
    }

    /// Creates an empty pool.
    pub fn new() -> (r: Self)
        ensures
            r.wf(),
            r@ == Seq::<Seq<char>>::empty(),
    {
        let r = StringPool { strings: Vec::new() };
        proof {
            assert(r@ =~= Seq::<Seq<char>>::empty());
        }
        r
    }

    /// The position of `s` among the strings, if it is there.
    fn position_of(&self, s: &str) -> (r: Option<usize>)
        ensures
            r is None ==> !self@.contains(s@),
            r is Some ==> r->0 < self@.len() && self@[r->0 as int] == s@,
    {
        let owned = s.to_owned();
        let mut i: usize = 0;
        while i < self.strings.len()
            invariant
                i <= self.strings@.len(),
                owned@ == s@,
                forall|j: int| 0 <= j < i ==> self@[j] != s@,
            decreases self.strings@.len() - i,
        {
            if self.strings[i].eq(&owned) {
                return Some(i);
            }
            i = i + 1;
        }
        None
    }

    /// Interns `s` and returns its identifier; a string interned before
    /// keeps the identifier it got then.
    pub fn intern(&mut self, s: &str) -> (r: StrId)
        requires
            old(self).wf(),
        ensures
            final(self).wf(),
            (final(self)@, r.0 as int) == intern_result(old(self)@, s@),
    {
        match self.position_of(s) {
            Some(i) => {
                proof {
                    lemma_index_unique(self@, s@, i as int);
                }
                StrId(i)
            },
            None => {
                let new_id = StrId(self.strings.len());
                self.strings.push(s.to_owned());
                proof {
                    assert(self@ =~= old(self)@.push(s@));
                }
                new_id
            },
        }
    }

    /// The string with identifier `id`, or `None` when no string has it.
    pub fn resolve(&self, id: StrId) -> (r: Option<&str>)
        ensures
            id.0 < self@.len() ==> r is Some && r->0@ == self@[id.0 as int],
            id.0 >= self@.len() ==> r is None,
    {
        if id.0 < self.strings.len() {
            Some(self.strings[id.0].as_str())
        } else {
            None
        }
    }

    /// The number of interned strings.
    pub fn len(&self) -> (r: usize)
        ensures
            r == self@.len(),
    {
        self.strings.len()
    }

    /// Whether no string is interned.
    pub fn is_empty(&self) -> (r: bool)
        ensures
            r == (self@.len() == 0),
    {
        self.len() == 0
    }

    /// Whether `s` is interned.
    pub fn contains(&self, s: &str) -> (r: bool)
        ensures
            r == self@.contains(s@),
    {
        self.position_of(s).is_some()
    }

    /// Whether `id` belongs to a string of this pool.
    pub fn contains_id(&self, id: StrId) -> (r: bool)
        ensures
            r == (id.0 < self@.len()),
    {
        self.strings.len() > id.0
    }

    /// A view of `id` together with the string it stands for, for
    /// debugging output.
    pub fn dbg(&self, id: StrId) -> (r: DebugStrId<'_>)
        ensures
            r.id == id,
            r.pool@ == self@,
    {
        DebugStrId { id, pool: self }
    }

    /// A cursor that hands out the strings in identifier order.
    pub fn iter(&self) -> (r: Iter<'_>)
        ensures
            r.elements() == self@,
            r.position() == 0,
    {
        Iter { data: &self.strings, curr: 0 }
    }

    /// Moves the strings out, in identifier order.
    pub fn into_iter(self) -> (r: std::vec::IntoIter<String>)
        ensures
            r.remaining().map_values(|s: String| s@) == self@,
    {
        self.strings.into_iter()
    }

    /// Builds a pool by interning `items` in order.
    pub fn from_iter(items: Vec<&str>) -> (r: Self)
        ensures
            r.wf(),
            r@ == first_occurrences(items@.map_values(|s: &str| s@)),
            r@ == intern_all(Seq::empty(), items@.map_values(|s: &str| s@)),
            forall|i: int| 0 <= i < items@.len() ==> r@.contains(#[trigger] items@[i]@),
            forall|j: int|
                0 <= j < r@.len() ==> exists|i: int|
                    0 <= i < items@.len() && #[trigger] items@[i]@ == #[trigger] r@[j],
            r@.len() <= items@.len(),
    {
        let ghost all = items@.map_values(|s: &str| s@);
        let mut pool = StringPool::new();
        let mut i: usize = 0;
        while i < items.len()
            invariant
                i <= items@.len(),
                all == items@.map_values(|s: &str| s@),
                pool.wf(),
                pool@ == first_occurrences(all.take(i as int)),
            decreases items@.len() - i,
        {
            pool.intern(items[i]);
            i = i + 1;
            proof {
                assert(all.take(i as int).drop_last() =~= all.take(i - 1));
            }
        }
        proof {
            assert(all.take(i as int) =~= all);
            pool_from_items_holds_exactly_the_items(all);
            interning_in_order_keeps_first_occurrences(all);
            assert forall|k: int| 0 <= k < items@.len() implies pool@.contains(
                #[trigger] items@[k]@,
            ) by {
                assert(all[k] == items@[k]@);
            }
            assert forall|j: int| 0 <= j < pool@.len() implies exists|k: int|
                0 <= k < items@.len() && #[trigger] items@[k]@ == #[trigger] pool@[j] by {
                assert(all.contains(pool@[j]));
                let k = choose|k: int| 0 <= k < all.len() && all[k] == pool@[j];
                assert(items@[k]@ == all[k]);
            }
        }
        pool
    }
}

/// An identifier together with the pool that made it, rendered as
/// `StrId(42:"Goblin")`.
pub struct DebugStrId<'a> {
    pub id: StrId,
    pub pool: &'a StringPool,
}

/// The rendering of identifier `n` standing for `name`.
pub open spec fn debug_text(n: nat, name: Seq<char>) -> Seq<char> {
    seq!['S', 't', 'r', 'I', 'd', '('] + decimal(n) + seq![':', '"'] + name + seq!['"', ')']
}

/// What an identifier that no string has stands for in debugging output.
pub open spec fn invalid_text() -> Seq<char> {
    seq!['<', 'i', 'n', 'v', 'a', 'l', 'i', 'd', '>']
}

impl<'a> DebugStrId<'a> {
    /// The text `StrId(<id>:"<string>")`, with `<invalid>` in place of the
    /// string when the pool has none with this identifier.
    pub fn render(&self) -> (r: String)
        ensures
            r@ == debug_text(
                self.id.0 as nat,
                if self.id.0 < self.pool@.len() {
                    self.pool@[self.id.0 as int]
                } else {
                    invalid_text()
                },
            ),
    {
        proof {
            reveal_strlit("<invalid>");
            reveal_strlit("StrId(");
            reveal_strlit(":\"");
            reveal_strlit("\")");
        }
        let name = self.pool.resolve(self.id).unwrap_or("<invalid>");
        let mut out = String::from_str("StrId(");
        out.append(decimal_string(self.id.0).as_str());
        out.append(":\"");
        out.append(name);
        out.append("\")");
        proof {
            assert(out@ =~= debug_text(
                self.id.0 as nat,
                if self.id.0 < self.pool@.len() {
                    self.pool@[self.id.0 as int]
                } else {
                    invalid_text()
                },
            ));
        }
        out
    }
}

/// A cursor over the strings of a [`StringPool`], in identifier order.
pub struct Iter<'a> {
    data: &'a Vec<String>,
    curr: usize,
}

impl<'a> Iter<'a> {
    /// The strings the cursor walks over.
    pub closed spec fn elements(&self) -> Seq<Seq<char>> {
        self.data@.map_values(|s: String| s@)
    }

    /// How many strings were handed out so far.
    pub closed spec fn position(&self) -> nat {
        self.curr as nat
    }

    /// The next string, or `None` once every string was handed out.
    pub fn next(&mut self) -> (r: Option<&'a str>)
        ensures
            final(self).elements() == old(self).elements(),
            old(self).position() < old(self).elements().len() ==> r is Some
                && r->0@ == old(self).elements()[old(self).position() as int]
                && final(self).position() == old(self).position() + 1,
            old(self).position() >= old(self).elements().len() ==> r is None
                && final(self).position() == old(self).position(),
    {
        if self.curr < self.data.len() {
            let s = self.data[self.curr].as_str();
            self.curr = self.curr + 1;
            Some(s)
        } else {
            None
        }
    }
}

impl Default for StringPool {
    /// An empty pool.
    fn default() -> (r: Self)
        ensures
            r.wf(),
            r@ == Seq::<Seq<char>>::empty(),
    {
        StringPool::new()
    }
}

} // verus!
