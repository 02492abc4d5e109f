use vstd::prelude::*;
use vstd::string::StringSliceAdditionalSpecFns;
use vstd::utf8::valid_utf8;
use vstd::utf8::is_char_boundary;
use vstd::utf8::pop_first_scalar;
use vstd::utf8::length_of_first_scalar;
use vstd::utf8::is_continuation_byte;

verus! {

broadcast use {
    vstd::utf8::encode_utf8_valid_utf8,
    vstd::utf8::is_char_boundary_iff_not_is_continuation_byte,
    vstd::utf8::is_char_boundary_start_end_of_seq,
};

/// Whether `needle` occurs in `hay` starting at byte `k`.
pub open spec fn occurs_at(hay: Seq<u8>, needle: Seq<u8>, k: int) -> bool {
    &&& 0 <= k
    &&& k + needle.len() <= hay.len()
    &&& hay.subrange(k, k + needle.len()) == needle
}

/// Whether byte `k` is where `needle` occurs first in `hay`.
pub open spec fn first_occurrence_at(hay: Seq<u8>, needle: Seq<u8>, k: int) -> bool {
    &&& occurs_at(hay, needle, k)
    &&& forall|j: int| 0 <= j < k ==> !occurs_at(hay, needle, j)
}

/// Whether `needle` occurs nowhere in `hay`.
pub open spec fn occurs_nowhere(hay: Seq<u8>, needle: Seq<u8>) -> bool {
    forall|j: int| 0 <= j <= hay.len() ==> !occurs_at(hay, needle, j)
}

/// The byte index at which `needle` occurs first in `hay`, or `None`.
fn find_bytes(hay: &[u8], needle: &[u8]) -> (r: Option<usize>)
    ensures
        r is None ==> occurs_nowhere(hay@, needle@),
        r is Some ==> first_occurrence_at(hay@, needle@, r->0 as int),
{
    let n = hay.len();
    let m = needle.len();
    if m > n {
        return None;
    }
    let mut k: usize = 0;
    while k <= n - m
        invariant
            n == hay@.len(),
            m == needle@.len(),
            m <= n,
            k <= n - m + 1,
            forall|j: int| 0 <= j < k ==> !occurs_at(hay@, needle@, j),
        decreases n - m + 1 - k,
    {
        let mut i: usize = 0;
        let mut same = true;
        while i < m
            invariant
                n == hay@.len(),
                m == needle@.len(),
                k + m <= n,
                i <= m,
                same == (forall|t: int| 0 <= t < i ==> hay@[k + t] == needle@[t]),
            decreases m - i,
        {
            if hay[k + i] != needle[i] {
                same = false;
            }
            i = i + 1;
        }
        proof {
            if same {
                assert(hay@.subrange(k as int, k + m) =~= needle@);
            } else {
                let t = choose|t: int| 0 <= t < m && hay@[k + t] != needle@[t];
                assert(hay@.subrange(k as int, k + m)[t] != needle@[t]);
            }
        }
        if same {
            return Some(k);
        }
        k = k + 1;
    }
    None
}

/// A valid UTF-8 sequence that starts with a valid UTF-8 sequence has a
/// character boundary right after it.
proof fn lemma_boundary_after_prefix(pre: Seq<u8>, rest: Seq<u8>)
    requires
        valid_utf8(pre),
        valid_utf8(pre + rest),
    ensures
        is_char_boundary(pre + rest, pre.len() as int),
    decreases pre.len(),
{
    let whole = pre + rest;
    if pre.len() > 0 {
        let l = length_of_first_scalar(pre);
        assert(whole[0] == pre[0]);
        assert(length_of_first_scalar(whole) == l);
        assert(pop_first_scalar(whole) =~= pop_first_scalar(pre) + rest);
        lemma_boundary_after_prefix(pop_first_scalar(pre), rest);
    }
}

/// Splits a string at every occurrence of a delimiter, front to back.
pub struct StrSplit<'a> {
    remainder: Option<&'a str>,
    delimiter: &'a str,
}

impl<'a> StrSplit<'a> {
    /// The bytes not handed out yet, or `None` once the last piece was
    /// handed out.
    pub closed spec fn remainder_bytes(&self) -> Option<Seq<u8>> {
        match self.remainder {
            Some(s) => Some(s.spec_bytes()),
            None => None,
        }
    }

    /// The bytes of the delimiter.
    pub closed spec fn delimiter_bytes(&self) -> Seq<u8> {
        self.delimiter.spec_bytes()
    }

    /// Splits `haystack` at every occurrence of `delimiter`.
    pub fn new(haystack: &'a str, delimiter: &'a str) -> (r: Self)
        ensures
            r.remainder_bytes() == Some(haystack.spec_bytes()),
            r.delimiter_bytes() == delimiter.spec_bytes(),
    {
        Self { remainder: Some(haystack), delimiter }
    }

    /// The piece up to the first occurrence of the delimiter in what is
    /// left; without an occurrence, everything that is left. `None` once the
    /// last piece was handed out.
    pub fn next(&mut self) -> (r: Option<&'a str>)
        ensures
            final(self).delimiter_bytes() == old(self).delimiter_bytes(),
            old(self).remainder_bytes() is None ==> r is None && final(self).remainder_bytes() is None,
            old(self).remainder_bytes() is Some ==> ({
                let hay = old(self).remainder_bytes()->0;
                let d = old(self).delimiter_bytes();
                &&& r is Some
                &&& occurs_nowhere(hay, d) ==> r->0.spec_bytes() == hay
                    && final(self).remainder_bytes() is None
                &&& forall|k: int|
                    first_occurrence_at(hay, d, k) ==> r->0.spec_bytes() == hay.take(k)
                        && final(self).remainder_bytes() == Some(hay.skip(k + d.len()))
                &&& forall|k: int|
                    0 <= k && k + d.len() <= hay.len() && #[trigger] hay.subrange(k, k + d.len())
                        == d ==> final(self).remainder_bytes() is Some && r->0.spec_bytes().len()
                        <= k && hay == r->0.spec_bytes() + d + final(self).remainder_bytes()->0
                &&& d.len() > 0 ==> forall|j: int|
                    0 <= j && j + d.len() <= r->0.spec_bytes().len() ==> #[trigger] r->0.spec_bytes().subrange(
                        j,
                        j + d.len(),
                    ) != d
            }),
    {
        match self.remainder {
            None => None,
            Some(rem) => {
                let hay = rem.as_bytes();
                let d = self.delimiter.as_bytes();
                match find_bytes(hay, d) {
                    Some(k) => {
                        let ghost hb = rem.spec_bytes();
                        let ghost db = self.delimiter.spec_bytes();
                        proof {
                            assert(valid_utf8(hb));
                            assert(valid_utf8(db));
                            if db.len() > 0 {
                                assert(hb[k as int] == hb.subrange(k as int, k + db.len())[0]);
                                assert(is_char_boundary(db, 0));
                                assert(!is_continuation_byte(db[0]));
                                assert(!is_continuation_byte(hb[k as int]));
                                if k < hb.len() {
                                    assert(is_char_boundary(hb, k as int));
                                }
                            } else {
                                assert(hb.subrange(0, 0) =~= db);
                                assert(occurs_at(hb, db, 0));
                                assert(k == 0);
                                assert(is_char_boundary(hb, 0));
                            }
                        }
                        let (piece, after) = rem.split_at(k);
                        proof {
                            let tail = hb.subrange(k + db.len(), hb.len() as int);
                            assert(after.spec_bytes() =~= db + tail);
                            lemma_boundary_after_prefix(db, tail);
                        }
                        let (_, rest) = after.split_at(d.len());
                        self.remainder = Some(rest);
                        proof {
                            assert(rest.spec_bytes() =~= hb.skip(k + db.len()));
                            assert(piece.spec_bytes() =~= hb.take(k as int));
                            split_reassembles(hb, db, k as int);
                            assert forall|j: int|
                                0 <= j && j + db.len() <= hb.len() && #[trigger] hb.subrange(
                                    j,
                                    j + db.len(),
                                ) == db implies j >= k by {
                                assert(occurs_at(hb, db, j));
                            }
                            if db.len() > 0 {
                                piece_has_no_delimiter(hb, db, k as int);
                                assert forall|j: int|
                                    0 <= j && j + db.len() <= piece.spec_bytes().len() implies #[trigger] piece.spec_bytes().subrange(
                                        j,
                                        j + db.len(),
                                    ) != db by {
                                    assert(!occurs_at(hb.take(k as int), db, j));
                                }
                            }
                        }
                        Some(piece)
                    },
                    None => {
                        proof {
                            let hb = rem.spec_bytes();
                            let db = self.delimiter.spec_bytes();
                            assert forall|j: int|
                                0 <= j && j + db.len() <= hb.len() implies #[trigger] hb.subrange(
                                    j,
                                    j + db.len(),
                                ) != db by {
                                assert(!occurs_at(hb, db, j));
                            }
                        }
                        self.remainder = None;
                        Some(rem)
                    },
                }
            },
        }
    }
}

/// A piece, the delimiter and the rest put back together give what was split.
pub proof fn split_reassembles(hay: Seq<u8>, needle: Seq<u8>, k: int)
    requires
        occurs_at(hay, needle, k),
    ensures
        hay.take(k) + needle + hay.skip(k + needle.len()) == hay,
{
    assert(hay.take(k) + needle + hay.skip(k + needle.len()) =~= hay);
}

/// The piece handed out before the first occurrence of a non-empty
/// delimiter does not contain the delimiter.
pub proof fn piece_has_no_delimiter(hay: Seq<u8>, needle: Seq<u8>, k: int)
    requires
        first_occurrence_at(hay, needle, k),
        needle.len() > 0,
    ensures
        occurs_nowhere(hay.take(k), needle),
{
    assert forall|j: int| 0 <= j <= hay.take(k).len() implies !occurs_at(
        hay.take(k),
        needle,
        j,
    ) by {
        if occurs_at(hay.take(k), needle, j) {
            assert(hay.take(k).subrange(j, j + needle.len()) =~= hay.subrange(j, j + needle.len()));
            assert(occurs_at(hay, needle, j));
        }
    }
}

/// `needle` occurs at byte `k` exactly when the bytes of `hay` from `k` on
/// are the bytes of `needle`, wherever in `hay` that is, its end included.
pub proof fn occurs_at_is_byte_match(hay: Seq<u8>, needle: Seq<u8>, k: int)
    ensures
        occurs_at(hay, needle, k) <==> (0 <= k && k + needle.len() <= hay.len() && hay.subrange(
            k,
            k + needle.len(),
        ) == needle),
{
}

/// Wherever the bytes of the delimiter appear in what is left, there is a
/// first occurrence at or before that place, and before it the delimiter's
/// bytes appear nowhere.
pub proof fn delimiter_found_wherever_it_appears(hay: Seq<u8>, needle: Seq<u8>, k: int)
    requires
        0 <= k,
        k + needle.len() <= hay.len(),
        hay.subrange(k, k + needle.len()) == needle,
    ensures
        exists|j: int|
            0 <= j <= k && #[trigger] first_occurrence_at(hay, needle, j) && forall|i: int|
                0 <= i < j ==> #[trigger] hay.subrange(i, i + needle.len()) != needle || i
                    + needle.len() > hay.len(),
    decreases k,
{
    assert(occurs_at(hay, needle, k));
    if forall|j: int| 0 <= j < k ==> !occurs_at(hay, needle, j) {
        assert(first_occurrence_at(hay, needle, k));
        assert forall|i: int| 0 <= i < k implies #[trigger] hay.subrange(i, i + needle.len())
            != needle || i + needle.len() > hay.len() by {
            assert(!occurs_at(hay, needle, i));
        }
    } else {
        let j = choose|j: int| 0 <= j < k && occurs_at(hay, needle, j);
        delimiter_found_wherever_it_appears(hay, needle, j);
    }
}

} // verus!
