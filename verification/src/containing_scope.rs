//! The innermost brace-delimited scope around a byte range of source text.
use vstd::prelude::*;
use vstd::utf8::*;
use vstd::string::StringSliceAdditionalSpecFns;
use std::ops::Range;
use crate::byte_text::{lemma_ascii_is_boundary, lemma_ascii_next_boundary, lemma_str_bytes};

verus! {

/// The depth after byte `c`, searching for an unmatched `target` with `depth` levels
/// open: an `inverse` byte opens one level, a `target` byte closes one where one is
/// open, and any other byte (or a `target` at depth zero) leaves the depth as it is.
pub open spec fn next_depth(c: u8, target: u8, inverse: u8, depth: nat) -> nat {
    if c == inverse {
        depth + 1
    } else if c == target && depth > 0 {
        (depth - 1) as nat
    } else {
        depth
    }
}

/// The depth after the bytes of `s`, taken from first to last, starting at `depth`.
pub open spec fn depth_after(s: Seq<u8>, target: u8, inverse: u8, depth: nat) -> nat
    decreases s.len(),
{
    if s.len() == 0 {
        depth
    } else {
        depth_after(s.drop_first(), target, inverse, next_depth(s[0], target, inverse, depth))
    }
}

/// The depth after the bytes of `s`, taken from last to first, starting at `depth`.
pub open spec fn depth_before(s: Seq<u8>, target: u8, inverse: u8, depth: nat) -> nat
    decreases s.len(),
{
    if s.len() == 0 {
        depth
    } else {
        depth_before(s.drop_last(), target, inverse, next_depth(s.last(), target, inverse, depth))
    }
}

/// Scanning `b` from its end towards its start, with `depth` levels open: the position
/// of the first `target` byte met at depth zero.
pub open spec fn scan_back(b: Seq<u8>, target: u8, inverse: u8, depth: nat) -> Option<nat>
    decreases b.len(),
{
    if b.len() == 0 {
        None
    } else if b.last() == target && depth == 0 {
        Some((b.len() - 1) as nat)
    } else {
        scan_back(b.drop_last(), target, inverse, next_depth(b.last(), target, inverse, depth))
    }
}

/// Scanning `b` from its start towards its end, as `scan_back` does backwards.
pub open spec fn scan_forward(b: Seq<u8>, target: u8, inverse: u8, depth: nat) -> Option<nat>
    decreases b.len(),
{
    if b.len() == 0 {
        None
    } else if b[0] == target && depth == 0 {
        Some(0)
    } else {
        match scan_forward(b.drop_first(), target, inverse, next_depth(b[0], target, inverse, depth)) {
            Some(i) => Some(i + 1),
            None => None,
        }
    }
}

pub open spec fn open_brace() -> u8 {
    0x7b
}

pub open spec fn close_brace() -> u8 {
    0x7d
}

/// The selected bytes, from `start` up to `end` (none where `end` comes first).
pub open spec fn selection(b: Seq<u8>, start: int, end: int) -> Seq<u8> {
    if start <= end {
        b.subrange(start, end)
    } else {
        Seq::empty()
    }
}

/// How many `}` of the selection are not matched by a `{` within it.
pub open spec fn unmatched_closing(b: Seq<u8>, start: int, end: int) -> nat {
    depth_before(selection(b, start, end), open_brace(), close_brace(), 0)
}

/// How many `{` of the selection are not closed within it.
pub open spec fn unmatched_opening(b: Seq<u8>, start: int, end: int) -> nat {
    depth_after(selection(b, start, end), close_brace(), open_brace(), 0)
}

/// Start of the scope: just after the innermost `{` before the selection that is
/// still open after the selection, counting the braces inside it; or the start of
/// the text.
pub open spec fn scope_start(b: Seq<u8>, start: int, end: int) -> int {
    match scan_back(b.take(start), open_brace(), close_brace(), unmatched_closing(b, start, end)) {
        Some(i) => i + 1int,
        None => 0,
    }
}

/// End of the scope: the `}` after the selection that closes the scope, counting the
/// braces inside the selection; or the end of the text.
pub open spec fn scope_end(b: Seq<u8>, start: int, end: int) -> int {
    match scan_forward(b.skip(end), close_brace(), open_brace(), unmatched_opening(b, start, end)) {
        Some(i) => end + i,
        None => b.len() as int,
    }
}

proof fn lemma_scan_back_found(b: Seq<u8>, target: u8, inverse: u8, depth: nat)
    ensures
        scan_back(b, target, inverse, depth) matches Some(i) ==> i < b.len() && b[i as int]
            == target,
    decreases b.len(),
{
    if b.len() > 0 && !(b.last() == target && depth == 0) {
        let d = next_depth(b.last(), target, inverse, depth);
        lemma_scan_back_found(b.drop_last(), target, inverse, d);
    }
}

proof fn lemma_scan_forward_found(b: Seq<u8>, target: u8, inverse: u8, depth: nat)
    ensures
        scan_forward(b, target, inverse, depth) matches Some(i) ==> i < b.len() && b[i as int]
            == target,
    decreases b.len(),
{
    if b.len() > 0 && !(b[0] == target && depth == 0) {
        let d = next_depth(b[0], target, inverse, depth);
        lemma_scan_forward_found(b.drop_first(), target, inverse, d);
    }
}

/// One step of the depth-tracking search for an unmatched `target`: whether `c` is
/// the byte sought, and the depth after `c`. Run over bytes one after the other from
/// depth zero, see `law_matching_braces_sequence`.
pub fn matching_braces(target: u8, inverse: u8, c: u8, depth: usize) -> (r: (bool, usize))
    requires
        target != inverse,
        depth < usize::MAX,
    ensures
        r.0 == (c == target && depth == 0),
        r.1 == next_depth(c, target, inverse, depth as nat),
{
    if c == target && depth == 0 {
        return (true, depth);
    }
    let d = if c == inverse {
        depth + 1
    } else if c == target {
        depth - 1
    } else {
        depth
    };
    (false, d)
}

/// The byte range of the innermost `{ ... }` scope that holds the whole of
/// `input_range` in `s` (without the braces), counting the braces inside the range;
/// the whole text where no brace pair holds it.
pub fn containing_scope(s: &str, input_range: Range<usize>) -> (r: Range<usize>)
    requires
        input_range.start <= s.spec_bytes().len(),
        input_range.end <= s.spec_bytes().len(),
        is_char_boundary(s.spec_bytes(), input_range.start as int),
        is_char_boundary(s.spec_bytes(), input_range.end as int),
    ensures
        r.start == scope_start(s.spec_bytes(), input_range.start as int, input_range.end as int),
        r.end == scope_end(s.spec_bytes(), input_range.start as int, input_range.end as int),
        r.start <= input_range.start,
        input_range.end <= r.end <= s.spec_bytes().len(),
        is_char_boundary(s.spec_bytes(), r.start as int),
        is_char_boundary(s.spec_bytes(), r.end as int),
        r.start > 0 ==> s.spec_bytes()[r.start - 1] == open_brace(),
        r.end < s.spec_bytes().len() ==> s.spec_bytes()[r.end as int] == close_brace(),
{
    let bytes = s.as_bytes();
    let ghost b = s.spec_bytes();
    let start = input_range.start;
    let end = input_range.end;
    let ghost sel = selection(b, start as int, end as int);
    proof {
        lemma_str_bytes(s);
    }
    // Braces of the selection left unmatched within it: `{` from the left, `}` from
    // the right.
    let mut open_left: usize = 0;
    let mut close_left: usize = 0;
    if start < end {
        let mut k: usize = start;
        assert(b.subrange(start as int, end as int) =~= sel);
        while k < end
            invariant
                start <= k <= end <= b.len(),
                bytes@ == b,
                sel == b.subrange(start as int, end as int),
                open_left <= k - start,
                depth_after(sel, close_brace(), open_brace(), 0) == depth_after(
                    b.subrange(k as int, end as int),
                    close_brace(),
                    open_brace(),
                    open_left as nat,
                ),
            decreases end - k,
        {
            let ghost t = b.subrange(k as int, end as int);
            assert(t[0] == bytes[k as int]);
            assert(t.drop_first() =~= b.subrange(k + 1, end as int));
            let (_, d) = matching_braces(0x7d, 0x7b, bytes[k], open_left);
            open_left = d;
            k += 1;
        }
        let mut m: usize = end;
        while m > start
            invariant
                start <= m <= end <= b.len(),
                bytes@ == b,
                sel == b.subrange(start as int, end as int),
                close_left <= end - m,
                depth_before(sel, open_brace(), close_brace(), 0) == depth_before(
                    b.subrange(start as int, m as int),
                    open_brace(),
                    close_brace(),
                    close_left as nat,
                ),
            decreases m,
        {
            let ghost t = b.subrange(start as int, m as int);
            assert(t.last() == bytes[m - 1]);
            assert(t.drop_last() =~= b.subrange(start as int, m - 1));
            let (_, d) = matching_braces(0x7b, 0x7d, bytes[m - 1], close_left);
            close_left = d;
            m -= 1;
        }
        assert(b.subrange(start as int, start as int) =~= Seq::<u8>::empty());
        assert(b.subrange(end as int, end as int) =~= Seq::<u8>::empty());
    } else {
        assert(sel =~= Seq::<u8>::empty());
    }
    assert(close_left == unmatched_closing(b, start as int, end as int));
    assert(open_left == unmatched_opening(b, start as int, end as int));
    // Backwards from `start` for a `{` left open.
    let mut i: usize = start;
    let mut depth: usize = close_left;
    let mut opening: usize = 0;
    assert(b.take(start as int).take(start as int) =~= b.take(start as int));
    while i > 0
        invariant_except_break
            i <= start <= b.len(),
            bytes@ == b,
            depth <= close_left + (start - i),
            close_left <= b.len() - start,
            close_left == unmatched_closing(b, start as int, end as int),
            scan_back(b.take(start as int), open_brace(), close_brace(), close_left as nat) == scan_back(
                b.take(i as int),
                open_brace(),
                close_brace(),
                depth as nat,
            ),
            opening == 0,
        ensures
            opening == scope_start(b, start as int, end as int),
        decreases i,
    {
        let c = bytes[i - 1];
        let ghost t = b.take(i as int);
        assert(t.last() == c);
        assert(t.drop_last() =~= b.take(i - 1));
        let (found, d) = matching_braces(0x7b, 0x7d, c, depth);
        if found {
            opening = i;
            break;
        }
        depth = d;
        i -= 1;
    }
    // Forwards from `end` for the `}` that closes the scope.
    let mut j: usize = end;
    let mut depth2: usize = open_left;
    let mut closing: usize = bytes.len();
    assert(b.skip(end as int).skip(0) =~= b.skip(end as int));
    while j < bytes.len()
        invariant_except_break
            end <= j <= b.len(),
            bytes@ == b,
            depth2 <= open_left + (j - end),
            open_left <= end,
            open_left == unmatched_opening(b, start as int, end as int),
            scan_forward(b.skip(end as int), close_brace(), open_brace(), open_left as nat) == (
            match scan_forward(b.skip(j as int), close_brace(), open_brace(), depth2 as nat) {
                Some(k) => Some((k + (j - end)) as nat),
                None => None::<nat>,
            }),
            closing == b.len(),
        ensures
            closing == scope_end(b, start as int, end as int),
        decreases b.len() - j,
    {
        let c = bytes[j];
        let ghost t = b.skip(j as int);
        assert(t[0] == c);
        assert(t.drop_first() =~= b.skip(j + 1));
        let (found, d) = matching_braces(0x7d, 0x7b, c, depth2);
        if found {
            closing = j;
            break;
        }
        depth2 = d;
        j += 1;
    }
    proof {
        lemma_scope_bounds(b, start as int, end as int);
    }
    opening..closing
}

/// The scope around a range lies around it and within the text, on boundaries, and
/// is delimited by braces where it does not reach an end of the text.
pub proof fn lemma_scope_bounds(b: Seq<u8>, start: int, end: int)
    requires
        valid_utf8(b),
        0 <= start <= b.len(),
        0 <= end <= b.len(),
    ensures
        0 <= scope_start(b, start, end) <= start,
        end <= scope_end(b, start, end) <= b.len(),
        is_char_boundary(b, scope_start(b, start, end)),
        is_char_boundary(b, scope_end(b, start, end)),
        scope_start(b, start, end) > 0 ==> b[scope_start(b, start, end) - 1] == open_brace(),
        scope_end(b, start, end) < b.len() ==> b[scope_end(b, start, end)] == close_brace(),
{
    let dc = unmatched_closing(b, start, end);
    let dopen = unmatched_opening(b, start, end);
    is_char_boundary_start_end_of_seq(b);
    lemma_scan_back_found(b.take(start), open_brace(), close_brace(), dc);
    lemma_scan_forward_found(b.skip(end), close_brace(), open_brace(), dopen);
    if let Some(k) = scan_back(b.take(start), open_brace(), close_brace(), dc) {
        assert(b[k as int] == open_brace());
        lemma_ascii_is_boundary(b, k as int);
        lemma_ascii_next_boundary(b, k as int);
    }
    if let Some(k) = scan_forward(b.skip(end), close_brace(), open_brace(), dopen) {
        assert(b[end + k] == close_brace());
        lemma_ascii_is_boundary(b, end + k);
    }
}

/// One more byte at the end takes one more step.
proof fn lemma_depth_after_push(s: Seq<u8>, c: u8, target: u8, inverse: u8, depth: nat)
    ensures
        depth_after(s.push(c), target, inverse, depth) == next_depth(
            c,
            target,
            inverse,
            depth_after(s, target, inverse, depth),
        ),
    decreases s.len(),
{
    if s.len() > 0 {
        assert(s.push(c).drop_first() =~= s.drop_first().push(c));
        assert(s.push(c)[0] == s[0]);
        lemma_depth_after_push(s.drop_first(), c, target, inverse, next_depth(s[0], target, inverse, depth));
    } else {
        let t = s.push(c);
        assert(t.drop_first() =~= Seq::<u8>::empty());
        assert(t[0] == c);
        assert(depth_after(t.drop_first(), target, inverse, next_depth(c, target, inverse, depth))
            == next_depth(c, target, inverse, depth));
    }
}

/// `matching_braces` called on the bytes of `cs` one after the other, starting at
/// depth zero and handing each call the depth the previous one returned: the depth
/// before call `k` is `depth_after(cs.take(k), ..)`, which starts at zero, follows
/// `next_depth` from call to call and never exceeds `k` (so no call overflows); and
/// call `k` reports its byte exactly when that byte is `target` at depth zero.
pub proof fn law_matching_braces_sequence(cs: Seq<u8>, target: u8, inverse: u8)
    ensures
        depth_after(cs.take(0), target, inverse, 0) == 0,
        forall|k: int|
            0 <= k < cs.len() ==> #[trigger] depth_after(cs.take(k + 1), target, inverse, 0)
                == next_depth(cs[k], target, inverse, depth_after(cs.take(k), target, inverse, 0)),
        forall|k: int| 0 <= k <= cs.len() ==> #[trigger] depth_after(cs.take(k), target, inverse, 0) <= k,
{
    assert(cs.take(0) =~= Seq::<u8>::empty());
    assert forall|k: int| 0 <= k < cs.len() implies #[trigger] depth_after(
        cs.take(k + 1),
        target,
        inverse,
        0,
    ) == next_depth(cs[k], target, inverse, depth_after(cs.take(k), target, inverse, 0)) by {
        assert(cs.take(k + 1) =~= cs.take(k).push(cs[k]));
        lemma_depth_after_push(cs.take(k), cs[k], target, inverse, 0);
    }
    assert forall|k: int| 0 <= k <= cs.len() implies #[trigger] depth_after(
        cs.take(k),
        target,
        inverse,
        0,
    ) <= k by {
        lemma_depth_after_prefix_bound(cs, target, inverse, k);
    }
}

proof fn lemma_depth_after_prefix_bound(cs: Seq<u8>, target: u8, inverse: u8, k: int)
    requires
        0 <= k <= cs.len(),
    ensures
        depth_after(cs.take(k), target, inverse, 0) <= k,
    decreases k,
{
    if k == 0 {
        assert(cs.take(0) =~= Seq::<u8>::empty());
    } else {
        lemma_depth_after_prefix_bound(cs, target, inverse, k - 1);
        assert(cs.take(k) =~= cs.take(k - 1).push(cs[k - 1]));
        lemma_depth_after_push(cs.take(k - 1), cs[k - 1], target, inverse, 0);
    }
}

/// One step of `depth_after` taken off the front of a prefix.
proof fn lemma_depth_after_take(cs: Seq<u8>, target: u8, inverse: u8, depth: nat, j: int)
    requires
        0 <= j < cs.len(),
    ensures
        depth_after(cs.take(j + 1), target, inverse, depth) == depth_after(
            cs.drop_first().take(j),
            target,
            inverse,
            next_depth(cs[0], target, inverse, depth),
        ),
{
    assert(cs.take(j + 1).drop_first() =~= cs.drop_first().take(j));
}

/// Running the search step by step from `depth` over `cs`, first to last: the search
/// stops at the first byte that is `target` while the depth reached before it is
/// zero, and finds nothing where there is no such byte.
pub proof fn law_scan_forward_steps(cs: Seq<u8>, target: u8, inverse: u8, depth: nat)
    ensures
        scan_forward(cs, target, inverse, depth) matches Some(k) ==> {
            &&& k < cs.len()
            &&& cs[k as int] == target
            &&& depth_after(cs.take(k as int), target, inverse, depth) == 0
            &&& forall|j: int|
                0 <= j < k ==> !(cs[j] == target && #[trigger] depth_after(
                    cs.take(j),
                    target,
                    inverse,
                    depth,
                ) == 0)
        },
        scan_forward(cs, target, inverse, depth) is None ==> forall|j: int|
            0 <= j < cs.len() ==> !(cs[j] == target && #[trigger] depth_after(
                cs.take(j),
                target,
                inverse,
                depth,
            ) == 0),
    decreases cs.len(),
{
    if cs.len() > 0 {
        assert(cs.take(0) =~= Seq::<u8>::empty());
        if !(cs[0] == target && depth == 0) {
            let rest = cs.drop_first();
            let d = next_depth(cs[0], target, inverse, depth);
            law_scan_forward_steps(rest, target, inverse, d);
            assert forall|j: int| 1 <= j < cs.len() implies #[trigger] depth_after(
                cs.take(j),
                target,
                inverse,
                depth,
            ) == depth_after(rest.take(j - 1), target, inverse, d) && cs[j] == rest[j - 1] by {
                lemma_depth_after_take(cs, target, inverse, depth, j - 1);
            }
            if let Some(k) = scan_forward(rest, target, inverse, d) {
                assert(depth_after(cs.take(k + 1int), target, inverse, depth) == depth_after(
                    rest.take(k as int),
                    target,
                    inverse,
                    d,
                ));
            }
        }
    }
}

/// Running the search step by step from `depth` over `cs`, last to first: the search
/// stops at the last byte that is `target` while the depth reached after it (from the
/// end) is zero, and finds nothing where there is no such byte.
pub proof fn law_scan_back_steps(cs: Seq<u8>, target: u8, inverse: u8, depth: nat)
    ensures
        scan_back(cs, target, inverse, depth) matches Some(k) ==> {
            &&& k < cs.len()
            &&& cs[k as int] == target
            &&& depth_before(cs.skip(k + 1int), target, inverse, depth) == 0
            &&& forall|j: int|
                k < j < cs.len() ==> !(cs[j] == target && #[trigger] depth_before(
                    cs.skip(j + 1),
                    target,
                    inverse,
                    depth,
                ) == 0)
        },
        scan_back(cs, target, inverse, depth) is None ==> forall|j: int|
            0 <= j < cs.len() ==> !(cs[j] == target && #[trigger] depth_before(
                cs.skip(j + 1),
                target,
                inverse,
                depth,
            ) == 0),
    decreases cs.len(),
{
    if cs.len() > 0 {
        let n = cs.len() as int;
        assert(cs.skip(n) =~= Seq::<u8>::empty());
        if !(cs.last() == target && depth == 0) {
            let rest = cs.drop_last();
            let d = next_depth(cs.last(), target, inverse, depth);
            law_scan_back_steps(rest, target, inverse, d);
            assert forall|j: int| 0 <= j < n - 1 implies #[trigger] depth_before(
                cs.skip(j + 1),
                target,
                inverse,
                depth,
            ) == depth_before(rest.skip(j + 1), target, inverse, d) && cs[j] == rest[j] by {
                let t = cs.skip(j + 1);
                assert(t.drop_last() =~= rest.skip(j + 1));
                assert(t.last() == cs.last());
            }
        }
    }
}

/// How many times byte `c` occurs in `s`.
pub open spec fn byte_count(s: Seq<u8>, c: u8) -> nat
    decreases s.len(),
{
    if s.len() == 0 {
        0
    } else {
        byte_count(s.drop_last(), c) + if s.last() == c {
            1nat
        } else {
            0nat
        }
    }
}

/// The `inverse` bytes of `s` less its `target` bytes: how many more levels `s`
/// opens than it closes.
pub open spec fn net_open(s: Seq<u8>, target: u8, inverse: u8) -> int {
    byte_count(s, inverse) - byte_count(s, target)
}

proof fn lemma_byte_count_concat(a: Seq<u8>, b: Seq<u8>, c: u8)
    ensures
        byte_count(a + b, c) == byte_count(a, c) + byte_count(b, c),
    decreases b.len(),
{
    if b.len() == 0 {
        assert(a + b =~= a);
    } else {
        lemma_byte_count_concat(a, b.drop_last(), c);
        assert((a + b).drop_last() =~= a + b.drop_last());
        assert((a + b).last() == b.last());
    }
}

proof fn lemma_byte_count_one(x: u8, c: u8)
    ensures
        byte_count(seq![x], c) == if x == c {
            1nat
        } else {
            0nat
        },
{
    let s = seq![x];
    assert(s.drop_last() =~= Seq::<u8>::empty());
    assert(s.last() == x);
    assert(byte_count(s.drop_last(), c) == 0);
}

/// Searching backwards from depth `depth` stops at the `target` byte at which the
/// levels opened by the bytes after it (each `inverse` opens one, each `target`
/// closes one) exactly use up `depth`; every `target` byte passed before it still
/// had levels to close. Nothing is found where every `target` byte had levels to
/// close. So the text between the byte found and the end is balanced against
/// `depth`: each `inverse` byte in it is matched by a `target` byte in it.
pub proof fn law_scan_back_balanced(cs: Seq<u8>, target: u8, inverse: u8, depth: nat)
    requires
        target != inverse,
    ensures
        scan_back(cs, target, inverse, depth) matches Some(k) ==> {
            &&& k < cs.len()
            &&& cs[k as int] == target
            &&& depth + net_open(cs.skip(k + 1int), target, inverse) == 0
            &&& forall|j: int|
                k < j < cs.len() && cs[j] == target ==> depth + net_open(
                    #[trigger] cs.skip(j + 1),
                    target,
                    inverse,
                ) > 0
        },
        scan_back(cs, target, inverse, depth) is None ==> forall|j: int|
            0 <= j < cs.len() && cs[j] == target ==> depth + net_open(
                #[trigger] cs.skip(j + 1),
                target,
                inverse,
            ) > 0,
    decreases cs.len(),
{
    if cs.len() > 0 {
        let n = cs.len() as int;
        assert(cs.skip(n) =~= Seq::<u8>::empty());
        if !(cs.last() == target && depth == 0) {
            let rest = cs.drop_last();
            let last = cs.last();
            let d = next_depth(last, target, inverse, depth);
            lemma_byte_count_one(last, target);
            lemma_byte_count_one(last, inverse);
            assert(d == depth + net_open(seq![last], target, inverse));
            law_scan_back_balanced(rest, target, inverse, d);
            assert forall|j: int| 0 <= j < n - 1 implies #[trigger] net_open(cs.skip(j + 1), target, inverse)
                == net_open(rest.skip(j + 1), target, inverse) + net_open(seq![last], target, inverse)
                && cs[j] == rest[j] by {
                assert(cs.skip(j + 1) =~= rest.skip(j + 1) + seq![last]);
                lemma_byte_count_concat(rest.skip(j + 1), seq![last], target);
                lemma_byte_count_concat(rest.skip(j + 1), seq![last], inverse);
            }
        }
    }
}

/// Searching forwards from depth `depth` stops at the `target` byte at which the
/// levels opened by the bytes before it exactly use up `depth`; every `target` byte
/// passed before it still had levels to close; nothing is found where every
/// `target` byte had levels to close.
pub proof fn law_scan_forward_balanced(cs: Seq<u8>, target: u8, inverse: u8, depth: nat)
    requires
        target != inverse,
    ensures
        scan_forward(cs, target, inverse, depth) matches Some(k) ==> {
            &&& k < cs.len()
            &&& cs[k as int] == target
            &&& depth + net_open(cs.take(k as int), target, inverse) == 0
            &&& forall|j: int|
                0 <= j < k && cs[j] == target ==> depth + net_open(
                    #[trigger] cs.take(j),
                    target,
                    inverse,
                ) > 0
        },
        scan_forward(cs, target, inverse, depth) is None ==> forall|j: int|
            0 <= j < cs.len() && cs[j] == target ==> depth + net_open(
                #[trigger] cs.take(j),
                target,
                inverse,
            ) > 0,
    decreases cs.len(),
{
    if cs.len() > 0 {
        assert(cs.take(0) =~= Seq::<u8>::empty());
        if !(cs[0] == target && depth == 0) {
            let rest = cs.drop_first();
            let first = cs[0];
            let d = next_depth(first, target, inverse, depth);
            lemma_byte_count_one(first, target);
            lemma_byte_count_one(first, inverse);
            assert(d == depth + net_open(seq![first], target, inverse));
            law_scan_forward_balanced(rest, target, inverse, d);
            assert forall|j: int| 1 <= j <= cs.len() implies #[trigger] net_open(cs.take(j), target, inverse)
                == net_open(seq![first], target, inverse) + net_open(rest.take(j - 1), target, inverse) by {
                assert(cs.take(j) =~= seq![first] + rest.take(j - 1));
                lemma_byte_count_concat(seq![first], rest.take(j - 1), target);
                lemma_byte_count_concat(seq![first], rest.take(j - 1), inverse);
            }
            assert forall|j: int| 1 <= j < cs.len() implies cs[j] == rest[j - 1] by {}
            if let Some(k) = scan_forward(rest, target, inverse, d) {
                assert(net_open(cs.take(k + 1int), target, inverse) == net_open(seq![first], target, inverse)
                    + net_open(rest.take(k as int), target, inverse));
            }
        }
    }
}

/// The scope is balanced around the selection, counting every brace at every depth:
/// where it starts after a `{`, the `{` and `}` between that brace and the selection,
/// with the `}` left unmatched in the selection, cancel out, and every `{` in between
/// is closed before the selection; likewise at its end with `}`.
pub proof fn law_scope_balanced(b: Seq<u8>, start: int, end: int)
    requires
        0 <= start <= b.len(),
        0 <= end <= b.len(),
    ensures
        scope_start(b, start, end) > 0 ==> {
            let s = scope_start(b, start, end);
            &&& b[s - 1] == open_brace()
            &&& unmatched_closing(b, start, end) + net_open(b.subrange(s, start), open_brace(), close_brace()) == 0
            &&& forall|j: int|
                s <= j < start && b[j] == open_brace() ==> unmatched_closing(b, start, end) + net_open(
                    #[trigger] b.subrange(j + 1, start),
                    open_brace(),
                    close_brace(),
                ) > 0
        },
        scope_end(b, start, end) < b.len() ==> {
            let e = scope_end(b, start, end);
            &&& b[e] == close_brace()
            &&& unmatched_opening(b, start, end) + net_open(b.subrange(end, e), close_brace(), open_brace()) == 0
            &&& forall|j: int|
                end <= j < e && b[j] == close_brace() ==> unmatched_opening(b, start, end) + net_open(
                    #[trigger] b.subrange(end, j),
                    close_brace(),
                    open_brace(),
                ) > 0
        },
{
    let dc = unmatched_closing(b, start, end);
    let dop = unmatched_opening(b, start, end);
    let pre = b.take(start);
    let post = b.skip(end);
    law_scan_back_balanced(pre, open_brace(), close_brace(), dc);
    law_scan_forward_balanced(post, close_brace(), open_brace(), dop);
    if let Some(k) = scan_back(pre, open_brace(), close_brace(), dc) {
        assert(pre.skip(k + 1int) =~= b.subrange(k + 1int, start));
        assert forall|j: int| k < j < start && b[j] == open_brace() implies dc + net_open(
            #[trigger] b.subrange(j + 1, start),
            open_brace(),
            close_brace(),
        ) > 0 by {
            assert(pre.skip(j + 1) =~= b.subrange(j + 1, start));
            assert(pre[j] == b[j]);
        }
    }
    if let Some(k) = scan_forward(post, close_brace(), open_brace(), dop) {
        assert(post.take(k as int) =~= b.subrange(end, end + k));
        assert forall|j: int| end <= j < end + k && b[j] == close_brace() implies dop + net_open(
            #[trigger] b.subrange(end, j),
            close_brace(),
            open_brace(),
        ) > 0 by {
            assert(post.take(j - end) =~= b.subrange(end, j));
            assert(post[j - end] == b[j]);
        }
    }
}

/// The depth reached going forwards is the larger of the starting depth plus what
/// the whole text opens, and the most that any final part of the text opens.
pub proof fn law_depth_after_counts(s: Seq<u8>, target: u8, inverse: u8, depth: nat)
    requires
        target != inverse,
    ensures
        depth_after(s, target, inverse, depth) >= depth + net_open(s, target, inverse),
        forall|j: int|
            0 <= j <= s.len() ==> depth_after(s, target, inverse, depth) >= net_open(
                #[trigger] s.skip(j),
                target,
                inverse,
            ),
        depth_after(s, target, inverse, depth) == depth + net_open(s, target, inverse) || exists|j: int|
            0 <= j <= s.len() && depth_after(s, target, inverse, depth) == net_open(
                #[trigger] s.skip(j),
                target,
                inverse,
            ),
    decreases s.len(),
{
    if s.len() == 0 {
        assert(s.skip(0) =~= s);
        assert(byte_count(s, target) == 0 && byte_count(s, inverse) == 0);
    } else {
        let c = s[0];
        let r = s.drop_first();
        let d = next_depth(c, target, inverse, depth);
        law_depth_after_counts(r, target, inverse, d);
        lemma_byte_count_one(c, target);
        lemma_byte_count_one(c, inverse);
        assert(s =~= seq![c] + r);
        lemma_byte_count_concat(seq![c], r, target);
        lemma_byte_count_concat(seq![c], r, inverse);
        assert(s.skip(0) =~= s);
        assert forall|j: int| 1 <= j <= s.len() implies #[trigger] s.skip(j) == r.skip(j - 1) by {
            assert(s.skip(j) =~= r.skip(j - 1));
        }
        let v = depth_after(s, target, inverse, depth);
        assert(v == depth_after(r, target, inverse, d));
        assert forall|j: int| 0 <= j <= s.len() implies v >= net_open(#[trigger] s.skip(j), target, inverse) by {
            if j >= 1 {
                assert(s.skip(j) == r.skip(j - 1));
            }
        }
        if v == d + net_open(r, target, inverse) {
            if c == target && depth == 0 {
                assert(r.skip(0) =~= r);
                assert(s.skip(1) == r.skip(0));
                assert(v == net_open(s.skip(1), target, inverse));
            }
        } else {
            let j = choose|j: int| 0 <= j <= r.len() && v == net_open(#[trigger] r.skip(j), target, inverse);
            assert(s.skip(j + 1) == r.skip(j));
            assert(v == net_open(s.skip(j + 1), target, inverse));
        }
    }
}

/// The depth reached going backwards is the larger of the starting depth plus what
/// the whole text opens, and the most that any initial part of the text opens.
pub proof fn law_depth_before_counts(s: Seq<u8>, target: u8, inverse: u8, depth: nat)
    requires
        target != inverse,
    ensures
        depth_before(s, target, inverse, depth) >= depth + net_open(s, target, inverse),
        forall|j: int|
            0 <= j <= s.len() ==> depth_before(s, target, inverse, depth) >= net_open(
                #[trigger] s.take(j),
                target,
                inverse,
            ),
        depth_before(s, target, inverse, depth) == depth + net_open(s, target, inverse) || exists|j: int|
            0 <= j <= s.len() && depth_before(s, target, inverse, depth) == net_open(
                #[trigger] s.take(j),
                target,
                inverse,
            ),
    decreases s.len(),
{
    let n = s.len() as int;
    if n == 0 {
        assert(s.take(0) =~= s);
        assert(byte_count(s, target) == 0 && byte_count(s, inverse) == 0);
    } else {
        let c = s.last();
        let r = s.drop_last();
        let d = next_depth(c, target, inverse, depth);
        law_depth_before_counts(r, target, inverse, d);
        lemma_byte_count_one(c, target);
        lemma_byte_count_one(c, inverse);
        assert(s =~= r + seq![c]);
        lemma_byte_count_concat(r, seq![c], target);
        lemma_byte_count_concat(r, seq![c], inverse);
        assert(s.take(n) =~= s);
        assert forall|j: int| 0 <= j <= n - 1 implies #[trigger] s.take(j) == r.take(j) by {
            assert(s.take(j) =~= r.take(j));
        }
        let v = depth_before(s, target, inverse, depth);
        assert(v == depth_before(r, target, inverse, d));
        assert forall|j: int| 0 <= j <= n implies v >= net_open(#[trigger] s.take(j), target, inverse) by {
            if j < n {
                assert(s.take(j) == r.take(j));
            }
        }
        if v == d + net_open(r, target, inverse) {
            if c == target && depth == 0 {
                assert(r.take(n - 1) =~= r);
                assert(s.take(n - 1) == r.take(n - 1));
                assert(v == net_open(s.take(n - 1), target, inverse));
            }
        } else {
            let j = choose|j: int| 0 <= j <= r.len() && v == net_open(#[trigger] r.take(j), target, inverse);
            assert(s.take(j) == r.take(j));
            assert(v == net_open(s.take(j), target, inverse));
        }
    }
}

/// The `{` left open in a selection number the most by which the `{` of any final
/// part of it outnumber its `}`; the `}` left unmatched number the most by which the
/// `}` of any initial part outnumber its `{` (both at least zero).
pub proof fn law_unmatched_braces(b: Seq<u8>, start: int, end: int)
    ensures
        ({
            let sel = selection(b, start, end);
            &&& forall|j: int|
                0 <= j <= sel.len() ==> unmatched_opening(b, start, end) >= net_open(
                    #[trigger] sel.skip(j),
                    close_brace(),
                    open_brace(),
                )
            &&& exists|j: int|
                0 <= j <= sel.len() && unmatched_opening(b, start, end) == net_open(
                    #[trigger] sel.skip(j),
                    close_brace(),
                    open_brace(),
                )
            &&& forall|j: int|
                0 <= j <= sel.len() ==> unmatched_closing(b, start, end) >= net_open(
                    #[trigger] sel.take(j),
                    open_brace(),
                    close_brace(),
                )
            &&& exists|j: int|
                0 <= j <= sel.len() && unmatched_closing(b, start, end) == net_open(
                    #[trigger] sel.take(j),
                    open_brace(),
                    close_brace(),
                )
        }),
{
    let sel = selection(b, start, end);
    law_depth_after_counts(sel, close_brace(), open_brace(), 0);
    law_depth_before_counts(sel, open_brace(), close_brace(), 0);
    assert(sel.skip(0) =~= sel);
    assert(sel.take(sel.len() as int) =~= sel);
    let n = sel.len() as int;
    if unmatched_opening(b, start, end) == net_open(sel, close_brace(), open_brace()) {
        assert(unmatched_opening(b, start, end) == net_open(sel.skip(0), close_brace(), open_brace()));
    }
    if unmatched_closing(b, start, end) == net_open(sel, open_brace(), close_brace()) {
        assert(unmatched_closing(b, start, end) == net_open(sel.take(n), open_brace(), close_brace()));
    }
}

} // verus!
