//! A text together with a selected byte range of it.
use vstd::prelude::*;
use vstd::utf8::*;
use vstd::string::{StringExecFns, StringSliceAdditionalSpecFns};
use std::ops::Range;
use crate::byte_text::{
    lemma_ascii_is_boundary,
    lemma_ascii_next_boundary,
    lemma_concat_boundary,
    lemma_decode_concat,
    lemma_str_bytes,
    str_slice,
};
use crate::replace_range::{Bound, lower_index, upper_index};

verus! {

/// A text and a selection in it, given as a byte range.
pub struct SelectedStr {
    s: String,
    range: Range<usize>,
}

/// The byte that marks the ends of a selection in marked-up text: a backtick.
pub open spec fn tick() -> u8 {
    0x60
}

/// How many backticks `b` holds.
pub open spec fn tick_count(b: Seq<u8>) -> nat
    decreases b.len(),
{
    if b.len() == 0 {
        0
    } else {
        tick_count(b.drop_last()) + if b.last() == tick() {
            1nat
        } else {
            0nat
        }
    }
}

impl SelectedStr {
    /// The whole text.
    pub closed spec fn text(&self) -> Seq<char> {
        self.s@
    }

    /// The byte offset where the selection starts.
    pub closed spec fn start(&self) -> int {
        self.range.start as int
    }

    /// The byte offset where the selection ends (exclusive).
    pub closed spec fn end(&self) -> int {
        self.range.end as int
    }

    /// Whether the selection lies within the text on character boundaries.
    pub open spec fn range_valid(&self) -> bool {
        let b = encode_utf8(self.text());
        &&& 0 <= self.start() <= self.end() <= b.len()
        &&& is_char_boundary(b, self.start())
        &&& is_char_boundary(b, self.end())
    }

    /// The characters selected.
    pub open spec fn selected(&self) -> Seq<char> {
        decode_utf8(encode_utf8(self.text()).subrange(self.start(), self.end()))
    }

    /// Selects `range` of `s`: an unbounded start is offset 0 and an unbounded end the
    /// length of `s`. The range is not checked against the text.
    pub fn new(s: &str, range: (Bound, Bound)) -> (r: SelectedStr)
        requires
            range.0 != Bound::Excluded(usize::MAX),
            range.1 != Bound::Included(usize::MAX),
        ensures
            r.text() == s@,
            r.start() == lower_index(range.0),
            r.end() == upper_index(range.1, s.spec_bytes().len() as int),
    {
        let start = match range.0 {
            Bound::Included(x) => x,
            Bound::Excluded(x) => x + 1,
            Bound::Unbounded => 0,
        };
        let end = match range.1 {
            Bound::Excluded(x) => x,
            Bound::Included(x) => x + 1,
            Bound::Unbounded => s.as_bytes().len(),
        };
        SelectedStr { s: s.to_owned(), range: start..end }
    }

    /// The selected text.
    pub fn range_str(&self) -> (r: &str)
        requires
            self.range_valid(),
        ensures
            r@ == self.selected(),
    {
        let t = self.s.as_str();
        assert(t.spec_bytes() == encode_utf8(self.text()));
        str_slice(t, self.range.start, self.range.end)
    }

    /// The selected byte range.
    pub fn range(&self) -> (r: Range<usize>)
        ensures
            r.start == self.start(),
            r.end == self.end(),
    {
        self.range.start..self.range.end
    }

    /// The whole text.
    pub fn as_str(&self) -> (r: &str)
        ensures
            r@ == self.text(),
    {
        self.s.as_str()
    }

    /// The same text with another selection.
    pub fn with_range(&self, range: Range<usize>) -> (r: SelectedStr)
        ensures
            r.text() == self.text(),
            r.start() == range.start,
            r.end() == range.end,
    {
        SelectedStr { range, s: self.s.clone() }
    }
}

proof fn lemma_tick_count_step(b: Seq<u8>, i: int)
    requires
        0 <= i < b.len(),
    ensures
        tick_count(b.take(i + 1)) == tick_count(b.take(i)) + if b[i] == tick() {
            1nat
        } else {
            0nat
        },
{
    assert(b.take(i + 1).drop_last() =~= b.take(i));
}

impl std::str::FromStr for SelectedStr {
    type Err = ();

    /// Reads a text with the selection marked by two backticks: the text is what is
    /// left without them, the selection what stood between them. Any other number of
    /// backticks is an error.
    fn from_str(s: &str) -> (r: Result<SelectedStr, ()>)
        ensures
            r is Ok <==> tick_count(s.spec_bytes()) == 2,
            r matches Ok(sel) ==> exists|i1: int, i2: int|
                #![trigger s.spec_bytes()[i1], s.spec_bytes()[i2]]
                {
                    &&& 0 <= i1 < i2 < s.spec_bytes().len()
                    &&& s.spec_bytes()[i1] == tick()
                    &&& s.spec_bytes()[i2] == tick()
                    &&& forall|j: int|
                        0 <= j < s.spec_bytes().len() && s.spec_bytes()[j] == tick() ==> j == i1 || j
                            == i2
                    &&& sel.text() == decode_utf8(s.spec_bytes().take(i1)) + decode_utf8(
                        s.spec_bytes().subrange(i1 + 1, i2),
                    ) + decode_utf8(s.spec_bytes().skip(i2 + 1))
                    &&& sel.start() == i1
                    &&& sel.end() == i2 - 1
                    &&& sel.range_valid()
                    &&& sel.selected() == decode_utf8(s.spec_bytes().subrange(i1 + 1, i2))
                },
    {
        let bytes = s.as_bytes();
        let ghost b = s.spec_bytes();
        let len = bytes.len();
        let mut count: usize = 0;
        let mut p1: usize = 0;
        let mut p2: usize = 0;
        let mut i: usize = 0;
        assert(b.take(0) =~= Seq::<u8>::empty());
        while i < len
            invariant
                i <= len == b.len(),
                bytes@ == b,
                count == tick_count(b.take(i as int)),
                count <= i,
                count >= 1 ==> p1 < i && b[p1 as int] == tick(),
                count >= 2 ==> p1 < p2 < i && b[p2 as int] == tick(),
                count == 0 ==> forall|j: int| 0 <= j < i ==> b[j] != tick(),
                count == 1 ==> forall|j: int| 0 <= j < i && b[j] == tick() ==> j == p1,
                count == 2 ==> forall|j: int| 0 <= j < i && b[j] == tick() ==> j == p1 || j == p2,
            decreases len - i,
        {
            proof {
                lemma_tick_count_step(b, i as int);
            }
            if bytes[i] == 0x60 {
                if count == 0 {
                    p1 = i;
                } else if count == 1 {
                    p2 = i;
                }
                count += 1;
            }
            i += 1;
        }
        assert(b.take(len as int) =~= b);
        if count != 2 {
            return Err(());
        }
        proof {
            lemma_str_bytes(s);
            lemma_ascii_is_boundary(b, p1 as int);
            lemma_ascii_next_boundary(b, p1 as int);
            lemma_ascii_is_boundary(b, p2 as int);
            lemma_ascii_next_boundary(b, p2 as int);
            is_char_boundary_start_end_of_seq(b);
        }
        let before = str_slice(s, 0, p1);
        let inside = str_slice(s, p1 + 1, p2);
        let after = str_slice(s, p2 + 1, len);
        let mut text = before.to_owned();
        text.append(inside);
        text.append(after);
        let ghost x = b.take(p1 as int);
        let ghost y = b.subrange(p1 + 1, p2 as int);
        let ghost z = b.skip(p2 + 1);
        proof {
            lemma_str_bytes(before);
            lemma_str_bytes(inside);
            lemma_str_bytes(after);
            assert(b.subrange(0, p1 as int) =~= x);
            assert(b.subrange(p2 + 1, len as int) =~= z);
            lemma_decode_concat(x, y);
            lemma_decode_concat(x + y, z);
            lemma_concat_boundary(x, y);
            lemma_concat_boundary(x + y, z);
            crate::byte_text::lemma_boundary_prefix(x + y + z, (x + y).len() as int, x.len() as int);
            assert((x + y + z).subrange(0, (x + y).len() as int) =~= x + y);
            assert((x + y + z).subrange(x.len() as int, (x + y).len() as int) =~= y);
        }
        let sel = SelectedStr { s: text, range: p1..(p2 - 1) };
        assert(encode_utf8(sel.text()) == x + y + z);
        assert(sel.range_valid());
        Ok(sel)
    }
}

} // verus!
