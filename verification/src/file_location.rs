//! Line/column locations in a text, and the text between two of them.
use vstd::prelude::*;
use vstd::utf8::*;
use vstd::string::StringSliceAdditionalSpecFns;
use std::ops::RangeInclusive;
use crate::byte_text::{lemma_str_bytes, str_slice};
use crate::error::KyberError;
use crate::number::{IntErrorKind, decimal_string, law_parse_format_usize, parse_usize, parse_usize_spec};
use crate::pattern::{captures, captures_view, compile, regex_captures, regex_compiles};

verus! {

/// What `FileLocation::parse_1_indexed` reads from a line and a column counted from 1.
pub open spec fn location_1_indexed_spec(line: Seq<char>, column: Seq<char>) -> Result<
    FileLocation,
    IntErrorKind,
> {
    match parse_usize_spec(line) {
        Err(k) => Err(k),
        Ok(l) => match parse_usize_spec(column) {
            Err(k) => Err(k),
            Ok(c) => Ok(FileLocation { line: (l - 1) as usize, column: (c - 1) as usize }),
        },
    }
}

/// Where `FileLocation::parse_1_indexed` does not underflow: a line or column read
/// as 0 has no 0-based counterpart.
pub open spec fn location_1_indexed_defined(line: Seq<char>, column: Seq<char>) -> bool {
    &&& parse_usize_spec(line) != Ok::<usize, IntErrorKind>(0)
    &&& parse_usize_spec(line) is Ok ==> parse_usize_spec(column) != Ok::<usize, IntErrorKind>(0)
}

pub open spec fn lift_int_error<T>(r: Result<T, IntErrorKind>) -> Result<T, KyberError> {
    match r {
        Ok(v) => Ok(v),
        Err(k) => Err(KyberError::ParseInt(k)),
    }
}

/// Locations are written counting from 1: reading back the 1-based decimal line and
/// column of a location gives the location.
pub proof fn law_parse_1_indexed_round_trip(loc: FileLocation)
    requires
        loc.line < usize::MAX,
        loc.column < usize::MAX,
    ensures
        ({
            let line = decimal_string((loc.line + 1) as nat);
            let column = decimal_string((loc.column + 1) as nat);
            location_1_indexed_defined(line, column) && location_1_indexed_spec(line, column) == Ok::<
                FileLocation,
                IntErrorKind,
            >(loc)
        }),
{
    law_parse_format_usize((loc.line + 1) as usize);
    law_parse_format_usize((loc.column + 1) as usize);
}

/// A location in a text: a line and a byte column in it, both counted from 0.
#[derive(Clone, Copy, Debug, PartialEq, Eq, Structural)]
pub struct FileLocation {
    pub line: usize,
    pub column: usize,
}

pub open spec fn newline() -> u8 {
    0x0a
}

/// How many newlines `b` holds.
pub open spec fn newline_count(b: Seq<u8>) -> nat
    decreases b.len(),
{
    if b.len() == 0 {
        0
    } else {
        newline_count(b.drop_last()) + if b.last() == newline() {
            1nat
        } else {
            0nat
        }
    }
}

/// Offset `i` is where line `line` (at least 1) begins: just after the newline that
/// has `line - 1` newlines before it.
pub open spec fn is_line_start(b: Seq<u8>, line: nat, i: int) -> bool {
    &&& 0 < i <= b.len()
    &&& b[i - 1] == newline()
    &&& newline_count(b.take(i - 1)) == line - 1
}

/// The byte offset where line `line` begins, if the text has that line.
pub open spec fn line_start(b: Seq<u8>, line: nat) -> Option<int> {
    if line == 0 {
        Some(0)
    } else if newline_count(b) >= line {
        Some(choose|i: int| is_line_start(b, line, i))
    } else {
        None
    }
}

/// What `FileLocation::index` gives for `loc` in a text of bytes `b`.
pub open spec fn index_spec(b: Seq<u8>, loc: FileLocation) -> Result<usize, KyberError> {
    match line_start(b, loc.line as nat) {
        None => Err(KyberError::LineOutOfRange(loc.line)),
        Some(ls) => {
            let this = ls + loc.column;
            if line_start(b, (loc.line + 1) as nat) matches Some(next) && next <= this {
                Err(KyberError::ColumnOutOfRange { column: loc.column, line: loc.line })
            } else if this >= b.len() {
                Err(KyberError::LocationOutOfFile { line: loc.line, column: loc.column })
            } else {
                Ok(this as usize)
            }
        },
    }
}

/// Where `index` can run without overflow.
pub open spec fn index_defined(b: Seq<u8>, loc: FileLocation) -> bool {
    line_start(b, loc.line as nat) matches Some(ls) ==> ls + loc.column <= usize::MAX && loc.line
        < usize::MAX
}

proof fn lemma_newline_count_step(b: Seq<u8>, i: int)
    requires
        0 <= i < b.len(),
    ensures
        newline_count(b.take(i + 1)) == newline_count(b.take(i)) + if b[i] == newline() {
            1nat
        } else {
            0nat
        },
{
    assert(b.take(i + 1).drop_last() =~= b.take(i));
}

proof fn lemma_newline_count_monotone(b: Seq<u8>, i: int, j: int)
    requires
        0 <= i <= j <= b.len(),
    ensures
        newline_count(b.take(i)) <= newline_count(b.take(j)),
    decreases j - i,
{
    if i < j {
        lemma_newline_count_monotone(b, i, j - 1);
        lemma_newline_count_step(b, j - 1);
    }
}

proof fn lemma_line_start_unique(b: Seq<u8>, line: nat, i: int, j: int)
    requires
        line > 0,
        is_line_start(b, line, i),
        is_line_start(b, line, j),
    ensures
        i == j,
{
    if i < j {
        lemma_newline_count_step(b, i - 1);
        lemma_newline_count_monotone(b, i, j - 1);
    } else if j < i {
        lemma_newline_count_step(b, j - 1);
        lemma_newline_count_monotone(b, j, i - 1);
    }
}

proof fn lemma_line_start_exists(b: Seq<u8>, line: nat)
    requires
        0 < line <= newline_count(b),
    ensures
        exists|i: int| is_line_start(b, line, i),
    decreases b.len(),
{
    let d = b.drop_last();
    if newline_count(d) >= line {
        lemma_line_start_exists(d, line);
        let i = choose|i: int| is_line_start(d, line, i);
        assert(b.take(i - 1) =~= d.take(i - 1));
        assert(is_line_start(b, line, i));
    } else {
        assert(b.take(b.len() - 1) =~= d);
        assert(is_line_start(b, line, b.len() as int));
    }
}

/// The start of a line that exists is within the text, just after the right newline.
pub proof fn lemma_line_start(b: Seq<u8>, line: nat)
    ensures
        line_start(b, line) matches Some(i) ==> 0 <= i <= b.len() && (line > 0 ==> is_line_start(
            b,
            line,
            i,
        )),
{
    if line > 0 && newline_count(b) >= line {
        lemma_line_start_exists(b, line);
    }
}

/// Before the start of a line there are as many newlines as the line's number.
proof fn lemma_newlines_before_line_start(b: Seq<u8>, line: nat, ls: int)
    requires
        line_start(b, line) == Some(ls),
    ensures
        0 <= ls <= b.len(),
        newline_count(b.take(ls)) == line,
{
    lemma_line_start(b, line);
    if line == 0 {
        assert(b.take(0) =~= Seq::<u8>::empty());
    } else {
        lemma_newline_count_step(b, ls - 1);
    }
}

/// A location is found at its line's start plus its column where no newline comes
/// between the two (the newline that ends the line may itself be pointed at); where a
/// newline comes before the offset, the column runs past its line.
pub proof fn law_index_in_line(b: Seq<u8>, loc: FileLocation, ls: int)
    requires
        line_start(b, loc.line as nat) == Some(ls),
        ls + loc.column < b.len(),
    ensures
        (forall|i: int| ls <= i < ls + loc.column ==> b[i] != newline()) ==> index_spec(b, loc)
            == Ok::<usize, KyberError>((ls + loc.column) as usize),
        (exists|i: int| ls <= i < ls + loc.column && b[i] == newline()) ==> index_spec(b, loc)
            == Err::<usize, KyberError>(KyberError::ColumnOutOfRange { column: loc.column, line: loc.line }),
{
    let line = loc.line as nat;
    let this = ls + loc.column;
    lemma_newlines_before_line_start(b, line, ls);
    lemma_line_start(b, line + 1);
    if forall|i: int| ls <= i < this ==> b[i] != newline() {
        if let Some(next) = line_start(b, line + 1) {
            assert(is_line_start(b, line + 1, next));
            if next - 1 < this {
                if next - 1 >= ls {
                    assert(b[next - 1] != newline());
                } else {
                    lemma_newline_count_step(b, next - 1);
                    lemma_newline_count_monotone(b, next, ls);
                }
            }
        }
    }
    if exists|i: int| ls <= i < this && b[i] == newline() {
        let p = choose|i: int| ls <= i < this && b[i] == newline();
        lemma_newline_count_monotone(b, ls, p);
        lemma_newline_count_step(b, p);
        lemma_newline_count_monotone(b, p + 1, b.len() as int);
        assert(b.take(b.len() as int) =~= b);
        assert(newline_count(b) >= line + 1);
        let next = line_start(b, line + 1)->Some_0;
        assert(is_line_start(b, line + 1, next));
        if next > p + 1 {
            lemma_newline_count_monotone(b, p + 1, next - 1);
        }
    }
}

/// Where line `line` of `text` begins.
fn line_index(line: usize, text: &str) -> (r: Result<usize, KyberError>)
    ensures
        match line_start(text.spec_bytes(), line as nat) {
            Some(i) => r == Ok::<usize, KyberError>(i as usize),
            None => r == Err::<usize, KyberError>(KyberError::LineOutOfRange(line)),
        },
{
    if line == 0 {
        return Ok(0);
    }
    let bytes = text.as_bytes();
    let ghost b = text.spec_bytes();
    let mut count: usize = 0;
    let mut i: usize = 0;
    assert(b.take(0) =~= Seq::<u8>::empty());
    while i < bytes.len()
        invariant
            i <= b.len(),
            bytes@ == b,
            b == text.spec_bytes(),
            line > 0,
            count == newline_count(b.take(i as int)),
            count < line,
        decreases b.len() - i,
    {
        proof {
            lemma_newline_count_step(b, i as int);
        }
        if bytes[i] == 0x0a {
            if count + 1 == line {
                proof {
                    assert(newline_count(b.take(i + 1)) == line);
                    assert(is_line_start(b, line as nat, i + 1));
                    lemma_newline_count_monotone(b, i + 1, b.len() as int);
                    assert(b.take(b.len() as int) =~= b);
                    assert(newline_count(b) >= line);
                    lemma_line_start(b, line as nat);
                    let c = choose|k: int| is_line_start(b, line as nat, k);
                    lemma_line_start_unique(b, line as nat, c, i + 1);
                }
                return Ok(i + 1);
            }
            count += 1;
        }
        i += 1;
    }
    assert(b.take(b.len() as int) =~= b);
    Err(KyberError::LineOutOfRange(line))
}

/// `RangeInclusive::start` from std: the lower bound, which the documentation leaves
/// unspecified once the range has been iterated to exhaustion.
#[verifier::external_body]
pub(crate) fn range_start<T>(r: &RangeInclusive<T>) -> (s: &T)
    ensures
        !r@.exhausted ==> *s == r@.start,
{
    r.start()
}

/// `RangeInclusive::end` from std: the upper bound, which the documentation leaves
/// unspecified once the range has been iterated to exhaustion.
#[verifier::external_body]
pub(crate) fn range_end<T>(r: &RangeInclusive<T>) -> (e: &T)
    ensures
        !r@.exhausted ==> *e == r@.end,
{
    r.end()
}

impl FileLocation {
    pub fn new(line: usize, column: usize) -> (r: FileLocation)
        ensures
            r == (FileLocation { line, column }),
    {
        FileLocation { line, column }
    }

    /// The location of a line and a column written counting from 1.
    pub fn parse_1_indexed(line: &str, column: &str) -> (r: Result<FileLocation, KyberError>)
        requires
            location_1_indexed_defined(line@, column@),
        ensures
            r == lift_int_error(location_1_indexed_spec(line@, column@)),
    {
        let l = match parse_usize(line) {
            Ok(v) => v,
            Err(k) => {
                return Err(KyberError::ParseInt(k));
            },
        };
        let l = l - 1;
        let c = match parse_usize(column) {
            Ok(v) => v,
            Err(k) => {
                return Err(KyberError::ParseInt(k));
            },
        };
        Ok(FileLocation::new(l, c - 1))
    }

    /// The byte offset of this location in `s`: the start of its line plus its column.
    /// An error where the line does not exist, where the column reaches the start of
    /// the next line, or where the offset is past the end of the text.
    pub fn index(&self, s: &str) -> (r: Result<usize, KyberError>)
        requires
            index_defined(s.spec_bytes(), *self),
        ensures
            r == index_spec(s.spec_bytes(), *self),
            r matches Ok(i) ==> i < s.spec_bytes().len(),
    {
        let len = s.as_bytes().len();
        proof {
            lemma_line_start(s.spec_bytes(), self.line as nat);
            lemma_line_start(s.spec_bytes(), (self.line + 1) as nat);
        }
        let this_index = match line_index(self.line, s) {
            Ok(i) => i + self.column,
            Err(e) => {
                return Err(e);
            },
        };
        match line_index(self.line + 1, s) {
            Ok(index) => {
                if !(index > this_index) {
                    return Err(KyberError::ColumnOutOfRange { column: self.column, line: self.line });
                }
            },
            Err(_) => {},
        }
        if !(this_index < len) {
            return Err(KyberError::LocationOutOfFile { line: self.line, column: self.column });
        }
        Ok(this_index)
    }
}

impl From<(usize, usize)> for FileLocation {
    fn from(p: (usize, usize)) -> (r: FileLocation) {
        FileLocation::new(p.0, p.1)
    }
}

impl vstd::std_specs::convert::FromSpecImpl<(usize, usize)> for FileLocation {
    open spec fn obeys_from_spec() -> bool {
        true
    }

    open spec fn from_spec(v: (usize, usize)) -> FileLocation {
        FileLocation { line: v.0, column: v.1 }
    }
}

/// Whether `get` can slice out the text between the two locations.
pub open spec fn get_defined(b: Seq<u8>, start: FileLocation, end: FileLocation) -> bool {
    &&& index_defined(b, start)
    &&& index_spec(b, start) is Ok ==> index_defined(b, end)
    &&& index_spec(b, start) matches Ok(si) ==> (index_spec(b, end) matches Ok(ei) ==> {
        &&& si <= ei + 1
        &&& is_char_boundary(b, si as int)
        &&& is_char_boundary(b, ei + 1)
    })
}

/// What `get` gives: the first error of the two locations, else the bytes from the
/// start location through the end location.
pub open spec fn get_spec(b: Seq<u8>, start: FileLocation, end: FileLocation) -> Result<Seq<u8>, KyberError> {
    match index_spec(b, start) {
        Err(e) => Err(e),
        Ok(si) => match index_spec(b, end) {
            Err(e) => Err(e),
            Ok(ei) => Ok(b.subrange(si as int, ei + 1)),
        },
    }
}

/// The text from `range`'s start location through its end location, both included.
pub fn get(text: &str, range: RangeInclusive<FileLocation>) -> (r: Result<&str, KyberError>)
    requires
        !range@.exhausted,
        get_defined(text.spec_bytes(), range@.start, range@.end),
    ensures
        match get_spec(text.spec_bytes(), range@.start, range@.end) {
            Err(e) => r matches Err(e2) && e2 == e,
            Ok(t) => r matches Ok(t2) && t2.spec_bytes() == t,
        },
{
    let len = text.as_bytes().len();
    let start_index = match range_start(&range).index(text) {
        Ok(i) => i,
        Err(e) => {
            return Err(e);
        },
    };
    let last_index = match range_end(&range).index(text) {
        Ok(i) => i,
        Err(e) => {
            return Err(e);
        },
    };
    Ok(str_slice(text, start_index, last_index + 1))
}

fn index_is_defined(text: &str, loc: FileLocation) -> (r: bool)
    ensures
        r == index_defined(text.spec_bytes(), loc),
{
    let len = text.as_bytes().len();
    proof {
        lemma_line_start(text.spec_bytes(), loc.line as nat);
    }
    match line_index(loc.line, text) {
        Err(_) => true,
        Ok(ls) => loc.line < usize::MAX && loc.column <= usize::MAX - ls,
    }
}

/// Whether `get` can be called on `text` with a range from `start` to `end` without
/// panicking: the offsets are computable and, where both exist, the text can be cut
/// at them.
pub fn can_get(text: &str, start: FileLocation, end: FileLocation) -> (r: bool)
    ensures
        r == get_defined(text.spec_bytes(), start, end),
{
    let len = text.as_bytes().len();
    if !index_is_defined(text, start) {
        return false;
    }
    match start.index(text) {
        Err(_) => true,
        Ok(si) => {
            if !index_is_defined(text, end) {
                return false;
            }
            match end.index(text) {
                Err(_) => true,
                Ok(ei) => si <= ei + 1 && text.is_char_boundary(si) && text.is_char_boundary(ei + 1),
            }
        },
    }
}

/// The pattern of a range of two 1-based locations, `line,column:line,column`.
pub open spec fn range_pattern() -> Seq<char> {
    "(\\d+),(\\d+):(\\d+),(\\d+)"@
}

/// Whether the capture groups hold the four numbers of a range.
pub open spec fn range_groups_present(c: Option<Seq<Option<Seq<char>>>>) -> bool {
    c matches Some(g) && g.len() >= 5 && g[1] is Some && g[2] is Some && g[3] is Some && g[4] is Some
}

/// Where `parse_range` does not panic: where the pattern compiles, it matches `s` and
/// the four numbers are read without underflow.
pub open spec fn parse_range_defined(s: Seq<char>) -> bool {
    regex_compiles(range_pattern()) ==> {
        let c = regex_captures(range_pattern(), s);
        &&& range_groups_present(c)
        &&& location_1_indexed_defined(c->Some_0[1]->Some_0, c->Some_0[2]->Some_0)
        &&& location_1_indexed_spec(c->Some_0[1]->Some_0, c->Some_0[2]->Some_0) is Ok
            ==> location_1_indexed_defined(c->Some_0[3]->Some_0, c->Some_0[4]->Some_0)
    }
}

/// What `parse_range` reads from the four numbers of the first match in `s`.
pub open spec fn parse_range_spec(s: Seq<char>) -> Result<(FileLocation, FileLocation), KyberError> {
    let g = regex_captures(range_pattern(), s)->Some_0;
    match location_1_indexed_spec(g[1]->Some_0, g[2]->Some_0) {
        Err(k) => Err(KyberError::ParseInt(k)),
        Ok(start) => match location_1_indexed_spec(g[3]->Some_0, g[4]->Some_0) {
            Err(k) => Err(KyberError::ParseInt(k)),
            Ok(end) => Ok((start, end)),
        },
    }
}

fn group_text(groups: &Vec<Option<String>>, i: usize) -> (r: &String)
    requires
        i < groups@.len(),
        groups@[i as int] is Some,
    ensures
        *r == groups@[i as int]->Some_0,
{
    groups[i].as_ref().unwrap()
}

/// Reads a range `line,column:line,column` (1-based) from the first place in `s` that
/// has that form, into two 0-based locations.
pub fn parse_range(s: &str) -> (r: Result<(FileLocation, FileLocation), KyberError>)
    requires
        parse_range_defined(s@),
    ensures
        !regex_compiles(range_pattern()) ==> r matches Err(KyberError::Regex(_)),
        regex_compiles(range_pattern()) ==> r == parse_range_spec(s@),
{
    let p = match compile("(\\d+),(\\d+):(\\d+),(\\d+)".to_owned()) {
        Ok(p) => p,
        Err(e) => {
            return Err(KyberError::Regex(e));
        },
    };
    let caps = captures(&p, s);
    assert(captures_view(caps) == regex_captures(range_pattern(), s@));
    let groups = caps.unwrap();
    proof {
        let g = regex_captures(range_pattern(), s@)->Some_0;
        assert(g.len() == groups@.len());
        assert forall|i: int| 0 <= i < g.len() implies g[i] == crate::pattern::opt_string_view(
            #[trigger] groups@[i],
        ) by {}
    }
    let start = FileLocation::parse_1_indexed(group_text(&groups, 1), group_text(&groups, 2))?;
    let end = FileLocation::parse_1_indexed(group_text(&groups, 3), group_text(&groups, 4))?;
    Ok((start, end))
}

fn read_positive(s: &String) -> (r: bool)
    ensures
        r == (parse_usize_spec(s@) != Ok::<usize, IntErrorKind>(0)),
{
    match parse_usize(s.as_str()) {
        Ok(v) => v != 0,
        Err(_) => true,
    }
}

/// `parse_range` where it does not panic: `None` where the pattern compiles but does
/// not match `s`, or matches with a line or column of 0.
pub fn try_parse_range(s: &str) -> (r: Option<Result<(FileLocation, FileLocation), KyberError>>)
    ensures
        r is None <==> !parse_range_defined(s@),
        r matches Some(x) ==> (!regex_compiles(range_pattern()) ==> x matches Err(KyberError::Regex(_))),
        r matches Some(x) ==> (regex_compiles(range_pattern()) ==> x == parse_range_spec(s@)),
{
    let p = match compile("(\\d+),(\\d+):(\\d+),(\\d+)".to_owned()) {
        Ok(p) => p,
        Err(e) => {
            return Some(Err(KyberError::Regex(e)));
        },
    };
    let caps = captures(&p, s);
    assert(captures_view(caps) == regex_captures(range_pattern(), s@));
    let groups = match caps {
        Some(g) => g,
        None => {
            return None;
        },
    };
    proof {
        let g = regex_captures(range_pattern(), s@)->Some_0;
        assert(g.len() == groups@.len());
        assert forall|i: int| 0 <= i < g.len() implies g[i] == crate::pattern::opt_string_view(
            #[trigger] groups@[i],
        ) by {}
    }
    if groups.len() < 5 || groups[1].is_none() || groups[2].is_none() || groups[3].is_none()
        || groups[4].is_none() {
        return None;
    }
    let line1 = group_text(&groups, 1);
    let col1 = group_text(&groups, 2);
    if !read_positive(line1) {
        return None;
    }
    if parse_usize(line1.as_str()).is_ok() && !read_positive(col1) {
        return None;
    }
    let first_ok = match parse_usize(line1.as_str()) {
        Ok(_) => parse_usize(col1.as_str()).is_ok(),
        Err(_) => false,
    };
    if first_ok {
        let line2 = group_text(&groups, 3);
        let col2 = group_text(&groups, 4);
        if !read_positive(line2) {
            return None;
        }
        if parse_usize(line2.as_str()).is_ok() && !read_positive(col2) {
            return None;
        }
    }
    Some(parse_range(s))
}

} // verus!
