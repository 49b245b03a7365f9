//! Byte offsets into UTF-8 text: the facts that slicing at byte offsets relies on.
use vstd::prelude::*;
use vstd::utf8::*;
use vstd::string::StringSliceAdditionalSpecFns;

verus! {

broadcast use {encode_utf8_valid_utf8, encode_utf8_decode_utf8};

/// The bytes of a text are valid UTF-8 and decode to its characters.
pub proof fn lemma_str_bytes(s: &str)
    ensures
        valid_utf8(s.spec_bytes()),
        decode_utf8(s.spec_bytes()) == s@,
{
}

/// Character boundaries of a suffix that starts at a boundary are the boundaries of
/// the whole, shifted.
pub proof fn lemma_boundary_shift(b: Seq<u8>, lo: int, k: int)
    requires
        valid_utf8(b),
        0 <= lo <= b.len(),
        is_char_boundary(b, lo),
        0 <= k <= b.len() - lo,
    ensures
        valid_utf8(b.subrange(lo, b.len() as int)),
        is_char_boundary(b.subrange(lo, b.len() as int), k) == is_char_boundary(b, lo + k),
{
    let c = b.subrange(lo, b.len() as int);
    valid_utf8_split(b, lo);
    is_char_boundary_start_end_of_seq(b);
    is_char_boundary_start_end_of_seq(c);
    if 0 < k < c.len() {
        is_char_boundary_iff_not_is_continuation_byte(c, k);
        is_char_boundary_iff_not_is_continuation_byte(b, lo + k);
    }
}

/// Character boundaries of a prefix that ends at a boundary are the boundaries of the
/// whole below it.
pub proof fn lemma_boundary_prefix(b: Seq<u8>, hi: int, k: int)
    requires
        valid_utf8(b),
        0 <= hi <= b.len(),
        is_char_boundary(b, hi),
        0 <= k <= hi,
    ensures
        valid_utf8(b.subrange(0, hi)),
        is_char_boundary(b.subrange(0, hi), k) == is_char_boundary(b, k),
{
    let c = b.subrange(0, hi);
    valid_utf8_split(b, hi);
    is_char_boundary_start_end_of_seq(b);
    is_char_boundary_start_end_of_seq(c);
    if 0 < k < c.len() {
        is_char_boundary_iff_not_is_continuation_byte(c, k);
        is_char_boundary_iff_not_is_continuation_byte(b, k);
    }
}

/// A one-byte (ASCII) character at a boundary is followed by a boundary.
pub proof fn lemma_ascii_next_boundary(b: Seq<u8>, i: int)
    requires
        valid_utf8(b),
        0 <= i < b.len(),
        is_char_boundary(b, i),
        b[i] < 0x80,
    ensures
        is_char_boundary(b, i + 1),
{
    is_char_boundary_start_end_of_seq(b);
    if i + 1 < b.len() {
        let c = b.subrange(i, b.len() as int);
        valid_utf8_split(b, i);
        assert(length_of_first_scalar(c) == 1);
        let rest = pop_first_scalar(c);
        assert(valid_utf8(rest));
        assert(rest.len() > 0);
        is_char_boundary_iff_not_is_continuation_byte(rest, 0);
        assert(rest[0] == b[i + 1]);
        is_char_boundary_iff_not_is_continuation_byte(b, i + 1);
    }
}

/// A byte that is ASCII sits at a character boundary.
pub proof fn lemma_ascii_is_boundary(b: Seq<u8>, i: int)
    requires
        valid_utf8(b),
        0 <= i < b.len(),
        b[i] < 0x80,
    ensures
        is_char_boundary(b, i),
{
    is_char_boundary_iff_not_is_continuation_byte(b, i);
}

/// Where two valid texts meet is a character boundary of their concatenation.
pub proof fn lemma_concat_boundary(x: Seq<u8>, y: Seq<u8>)
    requires
        valid_utf8(x),
        valid_utf8(y),
    ensures
        valid_utf8(x + y),
        is_char_boundary(x + y, x.len() as int),
{
    valid_utf8_concat(x, y);
    is_char_boundary_start_end_of_seq(x + y);
    if y.len() > 0 {
        is_char_boundary_start_end_of_seq(y);
        is_char_boundary_iff_not_is_continuation_byte(y, 0);
        assert((x + y)[x.len() as int] == y[0]);
        is_char_boundary_iff_not_is_continuation_byte(x + y, x.len() as int);
    }
}

/// The bytes of `s` from offset `lo` up to (not including) offset `hi`, as `&s[lo..hi]`.
pub fn str_slice(s: &str, lo: usize, hi: usize) -> (r: &str)
    requires
        lo <= hi <= s.spec_bytes().len(),
        is_char_boundary(s.spec_bytes(), lo as int),
        is_char_boundary(s.spec_bytes(), hi as int),
    ensures
        r.spec_bytes() == s.spec_bytes().subrange(lo as int, hi as int),
        r@ == decode_utf8(s.spec_bytes().subrange(lo as int, hi as int)),
{
    let ghost b = s.spec_bytes();
    proof {
        lemma_boundary_shift(b, lo as int, (hi - lo) as int);
    }
    let (_, rest) = s.split_at(lo);
    let (mid, _) = rest.split_at(hi - lo);
    assert(mid.spec_bytes() =~= b.subrange(lo as int, hi as int));
    proof {
        lemma_str_bytes(mid);
    }
    mid
}

} // verus!

verus! {

/// Encoding a concatenation of character sequences concatenates their encodings.
pub proof fn lemma_encode_concat(a: Seq<char>, b: Seq<char>)
    ensures
        encode_utf8(a + b) == encode_utf8(a) + encode_utf8(b),
    decreases a.len(),
{
    if a.len() == 0 {
        assert(a + b =~= b);
        assert(encode_utf8(a) + encode_utf8(b) =~= encode_utf8(b));
    } else {
        lemma_encode_concat(a.drop_first(), b);
        assert((a + b).drop_first() =~= a.drop_first() + b);
        assert((a + b)[0] == a[0]);
        assert(encode_utf8(a + b) =~= encode_scalar(a[0] as u32) + encode_utf8(a.drop_first() + b));
        assert(encode_utf8(a) =~= encode_scalar(a[0] as u32) + encode_utf8(a.drop_first()));
    }
}

/// Decoding valid pieces and joining the characters is decoding the joined bytes.
pub proof fn lemma_decode_concat(x: Seq<u8>, y: Seq<u8>)
    requires
        valid_utf8(x),
        valid_utf8(y),
    ensures
        valid_utf8(x + y),
        decode_utf8(x) + decode_utf8(y) == decode_utf8(x + y),
        encode_utf8(decode_utf8(x) + decode_utf8(y)) == x + y,
{
    decode_utf8_encode_utf8(x);
    decode_utf8_encode_utf8(y);
    lemma_encode_concat(decode_utf8(x), decode_utf8(y));
    valid_utf8_concat(x, y);
    encode_utf8_decode_utf8(decode_utf8(x) + decode_utf8(y));
}

} // verus!
