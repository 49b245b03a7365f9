//! Hardening: trying the inlining refactoring on every `let` binding of the Rust
//! sources of a project. The choice of files and of bindings.
use vstd::prelude::*;
use crate::pattern::{compile, group_spans, regex_compiles, regex_group_spans};
use crate::text::{contains, contains_spec, ends_with, ends_with_spec};

verus! {

/// Whether a directory entry is left out of the search for source files: its name
/// holds `.git` or `target`.
pub fn is_excluded_entry(name: &str) -> (r: bool)
    ensures
        r == (contains_spec(name@, ".git"@) || contains_spec(name@, "target"@)),
{
    contains(name, ".git") || contains(name, "target")
}

/// Whether a file's name marks it as Rust source: it ends with `.rs`.
pub fn is_rust_source(name: &str) -> (r: bool)
    ensures
        r == ends_with_spec(name@, ".rs"@),
{
    ends_with(name, ".rs")
}

/// The pattern of a `let` binding: `let ([^ ]+) = .*;`, the name as group 1.
pub open spec fn let_pattern() -> Seq<char> {
    "let ([^ ]+) = .*;"@
}

/// The pattern of a `let` binding, character by character: `let`, a space, capture
/// group 1 of one or more characters other than a space (the name, whatever letters,
/// digits, underscores or other characters it holds), ` = `, any characters other
/// than a newline, and `;`.
pub proof fn law_let_pattern()
    ensures
        let_pattern() == seq![
            'l',
            'e',
            't',
            ' ',
            '(',
            '[',
            '^',
            ' ',
            ']',
            '+',
            ')',
            ' ',
            '=',
            ' ',
            '.',
            '*',
            ';',
        ],
{
    reveal_strlit("let ([^ ]+) = .*;");
    assert(let_pattern() =~= seq![
        'l',
        'e',
        't',
        ' ',
        '(',
        '[',
        '^',
        ' ',
        ']',
        '+',
        ')',
        ' ',
        '=',
        ' ',
        '.',
        '*',
        ';',
    ]);
}

/// The spans of the bound names, one per match of the `let` pattern.
pub open spec fn let_name_spans(text: Seq<char>) -> Seq<Option<(usize, usize)>> {
    regex_group_spans(let_pattern(), text, 1)
}

/// Where `let_bindings` does not panic: the pattern compiles and every match has a
/// non-empty name.
pub open spec fn let_bindings_defined(text: Seq<char>) -> bool {
    &&& regex_compiles(let_pattern())
    &&& forall|i: int| 0 <= i < let_name_spans(text).len() ==> (#[trigger] let_name_spans(text)[i] matches Some(
        sp,
    ) && sp.1 >= 1)
}

/// The first and last byte offsets of a bound name.
pub open spec fn name_bounds(sp: Option<(usize, usize)>) -> (usize, usize) {
    (sp->Some_0.0, (sp->Some_0.1 - 1) as usize)
}

/// The bounds of a bound name are its first byte and its last byte: the span's end
/// is one past the last byte given.
pub proof fn law_name_bounds(first: usize, past: usize)
    requires
        past >= 1,
    ensures
        name_bounds(Some((first, past))).0 == first,
        name_bounds(Some((first, past))).1 + 1 == past,
{
}

/// The names bound by `let` in `contents`, in order: of each, the byte offsets of its
/// first and of its last byte.
pub fn let_bindings(contents: &str) -> (r: Vec<(usize, usize)>)
    requires
        let_bindings_defined(contents@),
    ensures
        r@.len() == let_name_spans(contents@).len(),
        forall|i: int| 0 <= i < r@.len() ==> #[trigger] r@[i] == name_bounds(let_name_spans(contents@)[i]),
{
    let p = compile("let ([^ ]+) = .*;".to_owned()).unwrap();
    let spans = group_spans(&p, contents, 1);
    let mut out: Vec<(usize, usize)> = Vec::new();
    let mut i: usize = 0;
    while i < spans.len()
        invariant
            i <= spans@.len(),
            spans@ == let_name_spans(contents@),
            let_bindings_defined(contents@),
            out@.len() == i,
            forall|j: int| 0 <= j < i ==> #[trigger] out@[j] == name_bounds(spans@[j]),
        decreases spans@.len() - i,
    {
        assert(spans@[i as int] matches Some(sp) && sp.1 >= 1);
        let (start, end) = spans[i].unwrap();
        out.push((start, end - 1));
        i += 1;
    }
    out
}

/// `let_bindings` where it does not panic: `None` where the pattern does not compile
/// or a match has an empty name.
pub fn try_let_bindings(contents: &str) -> (r: Option<Vec<(usize, usize)>>)
    ensures
        r is None <==> !let_bindings_defined(contents@),
        r matches Some(v) ==> v@.len() == let_name_spans(contents@).len() && forall|i: int|
            0 <= i < v@.len() ==> #[trigger] v@[i] == name_bounds(let_name_spans(contents@)[i]),
{
    let p = match compile("let ([^ ]+) = .*;".to_owned()) {
        Ok(p) => p,
        Err(_) => {
            return None;
        },
    };
    let spans = group_spans(&p, contents, 1);
    let mut i: usize = 0;
    while i < spans.len()
        invariant
            i <= spans@.len(),
            spans@ == let_name_spans(contents@),
            forall|j: int| 0 <= j < i ==> (#[trigger] spans@[j] matches Some(sp) && sp.1 >= 1),
        decreases spans@.len() - i,
    {
        match spans[i] {
            Some((_, end)) => {
                if end < 1 {
                    return None;
                }
            },
            None => {
                return None;
            },
        }
        i += 1;
    }
    Some(let_bindings(contents))
}

} // verus!
