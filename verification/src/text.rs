//! Character-level helpers on strings.
use vstd::prelude::*;
use vstd::string::StringExecFns;

verus! {

/// `String::push` from std: appends one character at the end.
#[verifier::external_body]
pub(crate) fn push_char(s: &mut String, c: char)
    ensures
        final(s)@ == old(s)@.push(c),
{
    s.push(c)
}

/// The characters of `s`, in order.
pub fn chars_of(s: &str) -> (v: Vec<char>)
    ensures
        v@ == s@,
{
    let mut v: Vec<char> = Vec::new();
    for c in it: s.chars()
        invariant
            v@ == it.seq().take(it.index() as int),
            it.seq() == s@,
    {
        v.push(c);
    }
    v
}

/// The string made of the characters of `v`, in order.
pub fn string_from_chars(v: &[char]) -> (s: String)
    ensures
        s@ == v@,
{
    let mut s = String::new();
    let mut i: usize = 0;
    while i < v.len()
        invariant
            i <= v@.len(),
            s@ == v@.take(i as int),
        decreases v@.len() - i,
    {
        push_char(&mut s, v[i]);
        assert(v@.take(i as int + 1) == v@.take(i as int).push(v@[i as int]));
        i += 1;
    }
    assert(v@.take(v@.len() as int) == v@);
    s
}

} // verus!

verus! {

/// The views of a sequence of strings.
pub open spec fn views(v: Seq<String>) -> Seq<Seq<char>> {
    v.map_values(|p: String| p@)
}

/// The pieces of `s` between occurrences of `sep`, as `str::split` yields them
/// for a one-character pattern: always at least one piece, possibly empty ones.
pub open spec fn split_spec(s: Seq<char>, sep: char) -> Seq<Seq<char>>
    decreases s.len(),
{
    if s.len() == 0 {
        seq![Seq::<char>::empty()]
    } else {
        let r = split_spec(s.drop_last(), sep);
        if s.last() == sep {
            r.push(Seq::<char>::empty())
        } else {
            r.update(r.len() - 1, r.last().push(s.last()))
        }
    }
}

/// The pieces joined, with `sep` between consecutive pieces.
pub open spec fn join_spec(pieces: Seq<Seq<char>>, sep: char) -> Seq<char>
    decreases pieces.len(),
{
    if pieces.len() == 0 {
        Seq::<char>::empty()
    } else if pieces.len() == 1 {
        pieces[0]
    } else {
        join_spec(pieces.drop_last(), sep).push(sep) + pieces.last()
    }
}

/// `s` with every occurrence of `from` replaced by `to`, scanning left to right over
/// non-overlapping occurrences, as `str::replace` does. An empty `from` occurs before
/// every character and at the end.
pub open spec fn replace_spec(s: Seq<char>, from: Seq<char>, to: Seq<char>) -> Seq<char>
    decreases s.len(),
{
    if from.len() == 0 {
        if s.len() == 0 {
            to
        } else {
            to + seq![s[0]] + replace_spec(s.drop_first(), from, to)
        }
    } else if s.len() >= from.len() && s.take(from.len() as int) == from {
        to + replace_spec(s.skip(from.len() as int), from, to)
    } else if s.len() == 0 {
        s
    } else {
        seq![s[0]] + replace_spec(s.drop_first(), from, to)
    }
}

pub open spec fn starts_with_spec(s: Seq<char>, prefix: Seq<char>) -> bool {
    s.len() >= prefix.len() && s.take(prefix.len() as int) == prefix
}

pub open spec fn ends_with_spec(s: Seq<char>, suffix: Seq<char>) -> bool {
    s.len() >= suffix.len() && s.skip(s.len() - suffix.len()) == suffix
}

pub open spec fn contains_spec(s: Seq<char>, pat: Seq<char>) -> bool {
    exists|i: int| 0 <= i <= s.len() - pat.len() && #[trigger] s.subrange(i, i + pat.len()) == pat
}

proof fn lemma_split_nonempty(s: Seq<char>, sep: char)
    ensures
        split_spec(s, sep).len() >= 1,
    decreases s.len(),
{
    if s.len() > 0 {
        lemma_split_nonempty(s.drop_last(), sep);
    }
}

proof fn lemma_join_push_last(r: Seq<Seq<char>>, sep: char, c: char)
    requires
        r.len() >= 1,
    ensures
        join_spec(r.update(r.len() - 1, r.last().push(c)), sep) == join_spec(r, sep).push(c),
{
    let u = r.update(r.len() - 1, r.last().push(c));
    if r.len() == 1 {
    } else {
        assert(u.drop_last() =~= r.drop_last());
        assert(join_spec(u, sep) == join_spec(u.drop_last(), sep).push(sep) + u.last());
        assert(join_spec(r, sep) == join_spec(r.drop_last(), sep).push(sep) + r.last());
        assert(join_spec(u, sep) =~= join_spec(r, sep).push(c));
    }
}

/// Joining the pieces of a split with the same separator gives the text back.
pub proof fn law_join_split(s: Seq<char>, sep: char)
    ensures
        join_spec(split_spec(s, sep), sep) == s,
    decreases s.len(),
{
    if s.len() > 0 {
        let r = split_spec(s.drop_last(), sep);
        law_join_split(s.drop_last(), sep);
        lemma_split_nonempty(s.drop_last(), sep);
        if s.last() == sep {
            let p = r.push(Seq::<char>::empty());
            assert(p.drop_last() =~= r);
            assert(join_spec(p, sep) =~= s);
        } else {
            lemma_join_push_last(r, sep, s.last());
            assert(s.drop_last().push(s.last()) =~= s);
        }
    }
}

/// No piece of a split holds the separator.
pub proof fn law_split_pieces_lack_separator(s: Seq<char>, sep: char)
    ensures
        forall|i: int|
            0 <= i < split_spec(s, sep).len() ==> !(#[trigger] split_spec(s, sep)[i]).contains(sep),
    decreases s.len(),
{
    if s.len() > 0 {
        law_split_pieces_lack_separator(s.drop_last(), sep);
        lemma_split_nonempty(s.drop_last(), sep);
        let r = split_spec(s.drop_last(), sep);
        assert forall|i: int| 0 <= i < split_spec(s, sep).len() implies !(#[trigger] split_spec(
            s,
            sep,
        )[i]).contains(sep) by {
            if s.last() != sep && i == r.len() - 1 {
                let p = r.last().push(s.last());
                assert(!r[i].contains(sep));
                if p.contains(sep) {
                    let j = choose|j: int| 0 <= j < p.len() && p[j] == sep;
                    if j < p.len() - 1 {
                        assert(r.last()[j] == sep);
                    }
                }
            } else if i < r.len() {
                assert(split_spec(s, sep)[i] == r[i]);
            } else {
                assert(split_spec(s, sep)[i] =~= Seq::<char>::empty());
            }
        }
    }
}

/// `text` split at every `sep`, as `text.split(sep)` yields the pieces.
pub fn split_by_char(text: &str, sep: char) -> (r: Vec<String>)
    ensures
        views(r@) == split_spec(text@, sep),
{
    let cs = chars_of(text);
    let mut pieces: Vec<String> = Vec::new();
    let mut cur: Vec<char> = Vec::new();
    let mut i: usize = 0;
    assert(cs@.take(0) =~= Seq::<char>::empty());
    assert(views(pieces@).push(cur@) =~= split_spec(cs@.take(0), sep));
    while i < cs.len()
        invariant
            i <= cs@.len(),
            views(pieces@).push(cur@) == split_spec(cs@.take(i as int), sep),
        decreases cs@.len() - i,
    {
        let c = cs[i];
        let ghost before = cs@.take(i as int);
        assert(cs@.take(i + 1).drop_last() =~= before);
        assert(cs@.take(i + 1).last() == c);
        proof {
            lemma_split_nonempty(before, sep);
        }
        if c == sep {
            let piece = string_from_chars(cur.as_slice());
            let ghost prev = pieces@;
            pieces.push(piece);
            cur = Vec::new();
            assert(views(pieces@) =~= views(prev).push(piece@));
            assert(views(pieces@).push(cur@) =~= split_spec(cs@.take(i + 1), sep));
        } else {
            let ghost old_cur = cur@;
            cur.push(c);
            assert(views(pieces@).push(cur@) =~= views(pieces@).push(old_cur).update(
                views(pieces@).len() as int,
                old_cur.push(c),
            ));
        }
        i += 1;
    }
    let last = string_from_chars(cur.as_slice());
    let ghost prev = pieces@;
    pieces.push(last);
    assert(views(pieces@) =~= views(prev).push(cur@));
    assert(cs@.take(cs@.len() as int) =~= cs@);
    pieces
}

/// The pieces joined with `sep` between consecutive ones, as `join` on a slice of
/// strings does with a one-character separator.
pub fn join_with(pieces: &Vec<String>, sep: char) -> (r: String)
    ensures
        r@ == join_spec(views(pieces@), sep),
{
    if pieces.len() == 0 {
        return String::new();
    }
    let mut out = pieces[0].clone();
    let mut i: usize = 1;
    assert(views(pieces@.take(1)) =~= seq![pieces@[0]@]);
    while i < pieces.len()
        invariant
            1 <= i <= pieces@.len(),
            out@ == join_spec(views(pieces@.take(i as int)), sep),
        decreases pieces@.len() - i,
    {
        let ghost prev = views(pieces@.take(i as int));
        push_char(&mut out, sep);
        out.append(pieces[i].as_str());
        let ghost next = views(pieces@.take(i + 1));
        assert(next.drop_last() =~= prev);
        assert(next.last() == pieces@[i as int]@);
        i += 1;
    }
    assert(pieces@.take(pieces@.len() as int) =~= pieces@);
    out
}

/// Whether `pat` occurs in `s` at position `i`.
fn matches_at(s: &Vec<char>, i: usize, pat: &Vec<char>) -> (r: bool)
    requires
        i <= s@.len(),
    ensures
        r == (i + pat@.len() <= s@.len() && s@.subrange(i as int, i + pat@.len()) == pat@),
{
    if pat.len() > s.len() - i {
        return false;
    }
    let mut j: usize = 0;
    while j < pat.len()
        invariant
            i + pat@.len() <= s@.len(),
            s@.len() <= usize::MAX,
            j <= pat@.len(),
            forall|k: int| 0 <= k < j ==> s@[i + k] == pat@[k],
        decreases pat@.len() - j,
    {
        if s[i + j] != pat[j] {
            assert(s@.subrange(i as int, i + pat@.len())[j as int] != pat@[j as int]);
            return false;
        }
        j += 1;
    }
    assert(s@.subrange(i as int, i + pat@.len()) =~= pat@);
    true
}

fn append_chars(out: &mut Vec<char>, more: &Vec<char>)
    ensures
        final(out)@ == old(out)@ + more@,
{
    let mut j: usize = 0;
    while j < more.len()
        invariant
            j <= more@.len(),
            out@ == old(out)@ + more@.take(j as int),
        decreases more@.len() - j,
    {
        out.push(more[j]);
        assert(more@.take(j + 1) =~= more@.take(j as int).push(more@[j as int]));
        j += 1;
    }
    assert(more@.take(more@.len() as int) =~= more@);
}

/// `text` with every occurrence of `from` replaced by `to`, as `text.replace(from, to)`.
pub fn replace_all(text: &str, from: &str, to: &str) -> (r: String)
    ensures
        r@ == replace_spec(text@, from@, to@),
{
    let cs = chars_of(text);
    let fs = chars_of(from);
    let ts = chars_of(to);
    let mut out: Vec<char> = Vec::new();
    let mut i: usize = 0;
    assert(cs@.skip(0) =~= cs@);
    while i < cs.len()
        invariant
            i <= cs@.len(),
            out@ + replace_spec(cs@.skip(i as int), fs@, ts@) == replace_spec(cs@, fs@, ts@),
        decreases cs@.len() - i,
    {
        let ghost rest = cs@.skip(i as int);
        if fs.len() == 0 {
            let ghost before = out@;
            append_chars(&mut out, &ts);
            out.push(cs[i]);
            assert(rest.drop_first() =~= cs@.skip(i + 1));
            assert(out@ + replace_spec(cs@.skip(i + 1), fs@, ts@) =~= before + replace_spec(
                rest,
                fs@,
                ts@,
            ));
            i += 1;
        } else if matches_at(&cs, i, &fs) {
            assert(rest.take(fs@.len() as int) =~= cs@.subrange(i as int, i + fs@.len()));
            assert(rest.skip(fs@.len() as int) =~= cs@.skip(i + fs@.len()));
            append_chars(&mut out, &ts);
            i += fs.len();
        } else {
            assert(rest.take(fs@.len() as int) =~= cs@.subrange(i as int, i + fs@.len()) || rest.len()
                < fs@.len());
            assert(rest.drop_first() =~= cs@.skip(i + 1));
            out.push(cs[i]);
            i += 1;
        }
    }
    if fs.len() == 0 {
        append_chars(&mut out, &ts);
    }
    assert(cs@.skip(cs@.len() as int) =~= Seq::<char>::empty());
    string_from_chars(out.as_slice())
}

/// A text without the separator is a single piece.
pub proof fn lemma_split_without_separator(s: Seq<char>, sep: char)
    requires
        !s.contains(sep),
    ensures
        split_spec(s, sep) == seq![s],
    decreases s.len(),
{
    if s.len() == 0 {
        assert(s =~= Seq::<char>::empty());
    } else {
        assert(!s.drop_last().contains(sep)) by {
            if s.drop_last().contains(sep) {
                let j = choose|j: int| 0 <= j < s.drop_last().len() && s.drop_last()[j] == sep;
                assert(s[j] == sep);
            }
        }
        lemma_split_without_separator(s.drop_last(), sep);
        assert(s.last() != sep) by {
            assert(s[s.len() - 1] == s.last());
        }
        assert(s.drop_last().push(s.last()) =~= s);
        let r = split_spec(s.drop_last(), sep);
        assert(split_spec(s, sep) == r.update(r.len() - 1, r.last().push(s.last())));
        assert(r.update(r.len() - 1, r.last().push(s.last())) =~= seq![s]);
    }
}

/// Two texts without the separator, joined by it, split back into the two.
pub proof fn lemma_split_two(x: Seq<char>, y: Seq<char>, sep: char)
    requires
        !x.contains(sep),
        !y.contains(sep),
    ensures
        split_spec(x + seq![sep] + y, sep) == seq![x, y],
    decreases y.len(),
{
    let s = x + seq![sep] + y;
    if y.len() == 0 {
        lemma_split_without_separator(x, sep);
        assert(s.drop_last() =~= x);
        assert(y =~= Seq::<char>::empty());
        assert(s.last() == sep);
        assert(split_spec(s, sep) == split_spec(x, sep).push(Seq::<char>::empty()));
        assert(split_spec(s, sep) =~= seq![x, y]);
    } else {
        let y0 = y.drop_last();
        assert(!y0.contains(sep)) by {
            if y0.contains(sep) {
                let j = choose|j: int| 0 <= j < y0.len() && y0[j] == sep;
                assert(y[j] == sep);
            }
        }
        lemma_split_two(x, y0, sep);
        assert(s.drop_last() =~= x + seq![sep] + y0);
        assert(s.last() == y.last());
        assert(y.last() != sep) by {
            assert(y[y.len() - 1] == y.last());
        }
        assert(y0.push(y.last()) =~= y);
        let r = split_spec(s.drop_last(), sep);
        assert(r == seq![x, y0]);
        assert(split_spec(s, sep) == r.update(r.len() - 1, r.last().push(s.last())));
        assert(r.update(r.len() - 1, r.last().push(s.last())) =~= seq![x, y]);
    }
}

/// A piece without the separator, put after a separator at the end of a text, is the
/// last piece of the split.
proof fn lemma_split_append(s: Seq<char>, y: Seq<char>, sep: char)
    requires
        !y.contains(sep),
    ensures
        split_spec(s + seq![sep] + y, sep) == split_spec(s, sep).push(y),
    decreases y.len(),
{
    let t = s + seq![sep] + y;
    if y.len() == 0 {
        assert(t.drop_last() =~= s);
        assert(t.last() == sep);
        assert(y =~= Seq::<char>::empty());
    } else {
        let y0 = y.drop_last();
        assert(!y0.contains(sep)) by {
            if y0.contains(sep) {
                let j = choose|j: int| 0 <= j < y0.len() && y0[j] == sep;
                assert(y[j] == sep);
            }
        }
        lemma_split_append(s, y0, sep);
        assert(t.drop_last() =~= s + seq![sep] + y0);
        assert(t.last() == y.last());
        assert(y.last() != sep) by {
            assert(y[y.len() - 1] == y.last());
        }
        let r = split_spec(t.drop_last(), sep);
        assert(split_spec(t, sep) == r.update(r.len() - 1, r.last().push(t.last())));
        assert(y0.push(y.last()) =~= y);
        assert(r.update(r.len() - 1, r.last().push(t.last())) =~= split_spec(s, sep).push(y));
    }
}

/// Splitting the join of pieces that lack the separator gives the pieces back.
pub proof fn law_split_join(pieces: Seq<Seq<char>>, sep: char)
    requires
        pieces.len() >= 1,
        forall|i: int| 0 <= i < pieces.len() ==> !(#[trigger] pieces[i]).contains(sep),
    ensures
        split_spec(join_spec(pieces, sep), sep) == pieces,
    decreases pieces.len(),
{
    if pieces.len() == 1 {
        assert(!pieces[0].contains(sep));
        lemma_split_without_separator(pieces[0], sep);
        assert(seq![pieces[0]] =~= pieces);
    } else {
        let d = pieces.drop_last();
        assert forall|i: int| 0 <= i < d.len() implies !(#[trigger] d[i]).contains(sep) by {
            assert(d[i] == pieces[i]);
        }
        law_split_join(d, sep);
        assert(!pieces[pieces.len() - 1].contains(sep));
        assert(join_spec(pieces, sep) =~= join_spec(d, sep) + seq![sep] + pieces.last());
        lemma_split_append(join_spec(d, sep), pieces.last(), sep);
        assert(d.push(pieces.last()) =~= pieces);
    }
}

/// Whether `text` begins with `prefix`, as `str::starts_with`.
pub fn starts_with(text: &str, prefix: &str) -> (r: bool)
    ensures
        r == starts_with_spec(text@, prefix@),
{
    let cs = chars_of(text);
    let ps = chars_of(prefix);
    let r = matches_at(&cs, 0, &ps);
    assert(cs@.subrange(0, ps@.len() as int) =~= cs@.take(ps@.len() as int));
    r
}

/// Whether `text` ends with `suffix`, as `str::ends_with`.
pub fn ends_with(text: &str, suffix: &str) -> (r: bool)
    ensures
        r == ends_with_spec(text@, suffix@),
{
    let cs = chars_of(text);
    let ps = chars_of(suffix);
    if ps.len() > cs.len() {
        return false;
    }
    let r = matches_at(&cs, cs.len() - ps.len(), &ps);
    assert(cs@.subrange(cs@.len() - ps@.len(), cs@.len() as int) =~= cs@.skip(
        cs@.len() - ps@.len(),
    ));
    r
}

/// Whether `pat` occurs in `text`, as `str::contains`.
pub fn contains(text: &str, pat: &str) -> (r: bool)
    ensures
        r == contains_spec(text@, pat@),
{
    let cs = chars_of(text);
    let ps = chars_of(pat);
    if ps.len() > cs.len() {
        return false;
    }
    let limit = cs.len() - ps.len();
    let mut i: usize = 0;
    while i <= limit
        invariant
            cs@ == text@,
            ps@ == pat@,
            limit == cs@.len() - ps@.len(),
            i <= limit,
            forall|j: int| 0 <= j < i ==> #[trigger] cs@.subrange(j, j + ps@.len()) != ps@,
        decreases limit - i,
    {
        if matches_at(&cs, i, &ps) {
            return true;
        }
        if i == limit {
            return false;
        }
        i += 1;
    }
    false
}

/// Replacing a text by itself changes nothing.
pub proof fn law_replace_with_itself(s: Seq<char>, from: Seq<char>)
    ensures
        replace_spec(s, from, from) == s,
    decreases s.len(),
{
    if from.len() == 0 {
        if s.len() == 0 {
            assert(from =~= s);
        } else {
            law_replace_with_itself(s.drop_first(), from);
            assert(from + seq![s[0]] + s.drop_first() =~= s);
        }
    } else if s.len() >= from.len() && s.take(from.len() as int) == from {
        law_replace_with_itself(s.skip(from.len() as int), from);
        assert(from + s.skip(from.len() as int) =~= s);
    } else if s.len() > 0 {
        law_replace_with_itself(s.drop_first(), from);
        assert(seq![s[0]] + s.drop_first() =~= s);
    }
}

/// An occurrence of a non-empty `from` at the start of the text is replaced by `to`,
/// whatever `to` is, and the replacing goes on after it.
pub proof fn law_replace_at_occurrence(t: Seq<char>, from: Seq<char>, to: Seq<char>)
    requires
        from.len() > 0,
    ensures
        replace_spec(from + t, from, to) == to + replace_spec(t, from, to),
{
    let s = from + t;
    assert(s.take(from.len() as int) =~= from);
    assert(s.skip(from.len() as int) =~= t);
}

/// A text in which a non-empty `from` does not occur is left as it is.
pub proof fn law_replace_without_occurrence(s: Seq<char>, from: Seq<char>, to: Seq<char>)
    requires
        from.len() > 0,
        !contains_spec(s, from),
    ensures
        replace_spec(s, from, to) == s,
    decreases s.len(),
{
    if s.len() > 0 {
        if s.len() >= from.len() && s.take(from.len() as int) == from {
            assert(s.subrange(0int, 0int + from.len()) =~= s.take(from.len() as int));
        }
        let r = s.drop_first();
        assert(!contains_spec(r, from)) by {
            if contains_spec(r, from) {
                let i = choose|i: int| 0 <= i <= r.len() - from.len() && #[trigger] r.subrange(i, i + from.len()) == from;
                assert(s.subrange(i + 1, i + 1 + from.len()) =~= r.subrange(i, i + from.len()));
            }
        }
        law_replace_without_occurrence(r, from, to);
        assert(seq![s[0]] + r =~= s);
    }
}

/// A character that does not start an occurrence of a non-empty `from` is kept, and
/// the replacing goes on after it.
pub proof fn law_replace_keeps_other_character(c: char, t: Seq<char>, from: Seq<char>, to: Seq<char>)
    requires
        from.len() > 0,
        !starts_with_spec(seq![c] + t, from),
    ensures
        replace_spec(seq![c] + t, from, to) == seq![c] + replace_spec(t, from, to),
{
    let s = seq![c] + t;
    assert(s.drop_first() =~= t);
    assert(s[0] == c);
}

} // verus!
