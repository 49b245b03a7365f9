//! Replacing the part of a text that a byte range selects.
use vstd::prelude::*;
use vstd::utf8::*;
use vstd::string::{StringExecFns, StringSliceAdditionalSpecFns};
use crate::byte_text::{lemma_str_bytes, str_slice};

verus! {

/// An end of a byte range, as `std::ops::Bound<usize>`.
#[derive(Debug, Clone, Copy, PartialEq, Eq, Structural)]
pub enum Bound {
    Included(usize),
    Excluded(usize),
    Unbounded,
}

/// First byte offset in the range whose lower end is `start`.
pub open spec fn lower_index(start: Bound) -> int {
    match start {
        Bound::Included(x) => x as int,
        Bound::Excluded(x) => x + 1,
        Bound::Unbounded => 0,
    }
}

/// Byte offset just past the range whose upper end is `end`, in a text of `len` bytes.
pub open spec fn upper_index(end: Bound, len: int) -> int {
    match end {
        Bound::Included(x) => x + 1,
        Bound::Excluded(x) => x as int,
        Bound::Unbounded => len,
    }
}

/// An included lower end is the first byte of the range and an excluded one the byte
/// before it; an included upper end is the last byte of the range and an excluded one
/// the byte after it; an unbounded range runs from the start or to the end of the text.
pub proof fn law_bound_offsets(x: usize, len: int)
    ensures
        lower_index(Bound::Included(x)) == x,
        lower_index(Bound::Excluded(x)) == x + 1,
        lower_index(Bound::Unbounded) == 0,
        upper_index(Bound::Included(x), len) == x + 1,
        upper_index(Bound::Excluded(x), len) == x,
        upper_index(Bound::Unbounded, len) == len,
{
}

/// Whether the text before the range exists: its end is within the text, on a
/// character boundary, and computable without overflow.
pub open spec fn prefix_ok(b: Seq<u8>, start: Bound) -> bool {
    match start {
        Bound::Unbounded => true,
        Bound::Included(x) => x <= b.len() && is_char_boundary(b, x as int),
        Bound::Excluded(x) => x < usize::MAX && x + 1 <= b.len() && is_char_boundary(b, x + 1),
    }
}

/// Whether the text after the range exists.
pub open spec fn suffix_ok(b: Seq<u8>, end: Bound) -> bool {
    match end {
        Bound::Unbounded => true,
        Bound::Included(x) => x < usize::MAX && x + 1 <= b.len() && is_char_boundary(b, x + 1),
        Bound::Excluded(x) => x <= b.len() && is_char_boundary(b, x as int),
    }
}

/// Whether the text before, inside and after the range all exist.
pub open spec fn replace_range_ok(b: Seq<u8>, index: (Bound, Bound)) -> bool {
    &&& prefix_ok(b, index.0)
    &&& suffix_ok(b, index.1)
    &&& lower_index(index.0) <= upper_index(index.1, b.len() as int)
}

/// The characters inside the range.
pub open spec fn range_chars(b: Seq<u8>, index: (Bound, Bound)) -> Seq<char> {
    decode_utf8(b.subrange(lower_index(index.0), upper_index(index.1, b.len() as int)))
}

/// The text with the range replaced by `middle`.
pub open spec fn replaced_text(b: Seq<u8>, index: (Bound, Bound), middle: Seq<char>) -> Seq<char> {
    decode_utf8(b.subrange(0, lower_index(index.0))) + middle + decode_utf8(
        b.subrange(upper_index(index.1, b.len() as int), b.len() as int),
    )
}

/// Replaces the byte range `index` of a text by what `f` makes of the text in it.
pub trait ReplaceRange {
    /// The UTF-8 bytes of the text.
    spec fn text_bytes(&self) -> Seq<u8>;

    /// `None` where the range or the text around it cannot be sliced out (an end
    /// beyond the text or inside a character); otherwise the text before the range,
    /// then `f` of the text in the range, then the text after it.
    fn replace_range<F: FnOnce(&str) -> String>(&self, index: (Bound, Bound), f: F) -> (r: Option<
        String,
    >)
        requires
            !(prefix_ok(self.text_bytes(), index.0) && index.1 == Bound::Included(usize::MAX)),
            forall|t: &str| t@ == range_chars(self.text_bytes(), index) ==> #[trigger] f.requires((t,)),
        ensures
            r is Some <==> replace_range_ok(self.text_bytes(), index),
            r matches Some(out) ==> exists|t: &str, m: String|
                {
                    &&& t@ == range_chars(self.text_bytes(), index)
                    &&& #[trigger] f.ensures((t,), m)
                    &&& out@ == replaced_text(self.text_bytes(), index, m@)
                },
    ;
}

impl ReplaceRange for str {
    open spec fn text_bytes(&self) -> Seq<u8> {
        self.spec_bytes()
    }

    fn replace_range<F: FnOnce(&str) -> String>(&self, index: (Bound, Bound), f: F) -> (r: Option<
        String,
    >) {
        let ghost b = self.spec_bytes();
        proof {
            lemma_str_bytes(self);
            is_char_boundary_start_end_of_seq(b);
        }
        let len = self.as_bytes().len();
        let lo: usize = match index.0 {
            Bound::Unbounded => 0,
            Bound::Included(x) => {
                if x > len || !self.is_char_boundary(x) {
                    return None;
                }
                x
            },
            Bound::Excluded(x) => {
                if x == usize::MAX || x + 1 > len || !self.is_char_boundary(x + 1) {
                    return None;
                }
                x + 1
            },
        };
        let hi: usize = match index.1 {
            Bound::Unbounded => len,
            Bound::Included(x) => {
                if x + 1 > len || !self.is_char_boundary(x + 1) {
                    return None;
                }
                x + 1
            },
            Bound::Excluded(x) => {
                if x > len || !self.is_char_boundary(x) {
                    return None;
                }
                x
            },
        };
        if lo > hi {
            return None;
        }
        let prefix = str_slice(self, 0, lo);
        let middle = str_slice(self, lo, hi);
        let suffix = str_slice(self, hi, len);
        assert(middle@ == range_chars(b, index));
        let replaced = f(middle);
        let mut out = prefix.to_owned();
        out.append(replaced.as_str());
        out.append(suffix);
        Some(out)
    }
}

impl ReplaceRange for String {
    open spec fn text_bytes(&self) -> Seq<u8> {
        encode_utf8(self@)
    }

    fn replace_range<F: FnOnce(&str) -> String>(&self, index: (Bound, Bound), f: F) -> (r: Option<
        String,
    >) {
        let s: &str = self.as_str();
        assert(s.spec_bytes() == encode_utf8(self@));
        s.replace_range(index, f)
    }
}

/// Replacing a range by its own text gives the text back.
pub proof fn law_replace_range_identity(b: Seq<u8>, index: (Bound, Bound))
    requires
        valid_utf8(b),
        replace_range_ok(b, index),
    ensures
        replaced_text(b, index, range_chars(b, index)) == decode_utf8(b),
{
    let lo = lower_index(index.0);
    let hi = upper_index(index.1, b.len() as int);
    is_char_boundary_start_end_of_seq(b);
    decode_utf8_split(b, lo);
    let rest = b.subrange(lo, b.len() as int);
    crate::byte_text::lemma_boundary_shift(b, lo, hi - lo);
    decode_utf8_split(rest, hi - lo);
    assert(rest.subrange(0, hi - lo) =~= b.subrange(lo, hi));
    assert(rest.subrange(hi - lo, rest.len() as int) =~= b.subrange(hi, b.len() as int));
}

} // verus!
