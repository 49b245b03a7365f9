//! Regular expressions of the `regex` crate, behind trusted wrappers.
//!
//! What a regular expression matches takes pages to state, so the results of the
//! `regex` calls are given names here; everything built on them is verified against
//! those names.
use vstd::prelude::*;

verus! {

#[verifier::external_type_specification]
#[verifier::external_body]
pub struct ExRegex(regex::Regex);

#[verifier::external_type_specification]
#[verifier::external_body]
pub struct ExRegexError(regex::Error);

/// Whether `regex::Regex::new` accepts `pattern`.
pub uninterp spec fn regex_compiles(pattern: Seq<char>) -> bool;

/// What `Regex::captures` finds for `pattern` in `text`: `None` where the pattern does
/// not match, else the text of each capture group in order (group 0 is the whole
/// match), `None` for a group that took no part in the match.
pub uninterp spec fn regex_captures(pattern: Seq<char>, text: Seq<char>) -> Option<Seq<Option<Seq<char>>>>;

/// What `Regex::capture_names` yields for `pattern`: the name of each capture group
/// in order, `None` for an unnamed group.
pub uninterp spec fn regex_group_names(pattern: Seq<char>) -> Seq<Option<Seq<char>>>;

/// What `Regex::replace` gives: `text` with the first match of `pattern` replaced by
/// `replacement`, where `$name` and `${name}` in `replacement` stand for groups.
pub uninterp spec fn regex_replace_first(pattern: Seq<char>, text: Seq<char>, replacement: Seq<char>) -> Seq<char>;

/// What `Regex::replace_all` gives: every non-overlapping match replaced.
pub uninterp spec fn regex_replace_every(pattern: Seq<char>, text: Seq<char>, replacement: Seq<char>) -> Seq<char>;

/// What `Regex::captures_iter` yields for group `group`: for each successive
/// non-overlapping match of `pattern` in `text`, the byte offsets where that group's
/// match starts and ends, `None` where the group took no part in the match.
pub uninterp spec fn regex_group_spans(pattern: Seq<char>, text: Seq<char>, group: nat) -> Seq<Option<(usize, usize)>>;

/// A compiled regular expression together with its source text.
pub struct Pattern {
    source: String,
    compiled: regex::Regex,
}

impl Pattern {
    pub closed spec fn source(&self) -> Seq<char> {
        self.source@
    }
}

pub open spec fn opt_string_view(g: Option<String>) -> Option<Seq<char>> {
    match g {
        Some(s) => Some(s@),
        None => None,
    }
}

pub open spec fn captures_view(c: Option<Vec<Option<String>>>) -> Option<Seq<Option<Seq<char>>>> {
    match c {
        Some(v) => Some(v@.map_values(|g: Option<String>| opt_string_view(g))),
        None => None,
    }
}

/// `regex::Regex::new`: compiles `pattern`; it is kept as the source of the result.
/// Trusted: whether it compiles is named, not stated.
#[verifier::external_body]
pub(crate) fn compile(pattern: String) -> (r: Result<Pattern, regex::Error>)
    ensures
        r is Ok <==> regex_compiles(pattern@),
        r matches Ok(p) ==> p.source() == pattern@,
{
    match regex::Regex::new(&pattern) {
        Ok(compiled) => Ok(Pattern { source: pattern, compiled }),
        Err(e) => Err(e),
    }
}

/// `Regex::captures`, with each group's match turned into its text.
/// Trusted: the result is the named `regex_captures` of the source and the text.
#[verifier::external_body]
pub(crate) fn captures(p: &Pattern, text: &str) -> (r: Option<Vec<Option<String>>>)
    ensures
        captures_view(r) == regex_captures(p.source(), text@),
{
    p.compiled.captures(text).map(
        |c| c.iter().map(|m| m.map(|m| m.as_str().to_string())).collect(),
    )
}

/// `Regex::capture_names`, collected.
/// Trusted: the result is the named `regex_group_names` of the source.
#[verifier::external_body]
pub(crate) fn group_names(p: &Pattern) -> (r: Vec<Option<String>>)
    ensures
        r@.map_values(|g: Option<String>| opt_string_view(g)) == regex_group_names(p.source()),
{
    p.compiled.capture_names().map(|n| n.map(|n| n.to_string())).collect()
}

/// `Regex::captures_iter`, keeping of each match the byte span of group `group`.
/// Trusted: the result is the named `regex_group_spans` of source, text and group.
#[verifier::external_body]
pub(crate) fn group_spans(p: &Pattern, text: &str, group: usize) -> (r: Vec<Option<(usize, usize)>>)
    ensures
        r@ == regex_group_spans(p.source(), text@, group as nat),
{
    p.compiled.captures_iter(text).map(|c| c.get(group).map(|m| (m.start(), m.end()))).collect()
}

/// `Regex::replace` with a replacement string.
/// Trusted: the result is the named `regex_replace_first` of source, text and replacement.
#[verifier::external_body]
pub(crate) fn replace_first(p: &Pattern, text: &str, replacement: &str) -> (r: String)
    ensures
        r@ == regex_replace_first(p.source(), text@, replacement@),
{
    p.compiled.replace(text, replacement).into_owned()
}

/// `Regex::replace_all` with a replacement string.
/// Trusted: the result is the named `regex_replace_every` of source, text and replacement.
#[verifier::external_body]
pub(crate) fn replace_every(p: &Pattern, text: &str, replacement: &str) -> (r: String)
    ensures
        r@ == regex_replace_every(p.source(), text@, replacement@),
{
    p.compiled.replace_all(text, replacement).into_owned()
}

/// The position of the first group called `name`.
pub open spec fn first_index_of_name(names: Seq<Option<Seq<char>>>, name: Seq<char>) -> Option<int>
    decreases names.len(),
{
    if names.len() == 0 {
        None
    } else if names[0] == Some(name) {
        Some(0)
    } else {
        match first_index_of_name(names.drop_first(), name) {
            Some(i) => Some(i + 1),
            None => None,
        }
    }
}

/// The text that the group called `name` matched in the first match of `pattern` in
/// `text`: what `&captures[name]` gives, where it does not panic.
pub open spec fn named_group(pattern: Seq<char>, text: Seq<char>, name: Seq<char>) -> Option<Seq<char>> {
    match regex_captures(pattern, text) {
        None => None,
        Some(g) => match first_index_of_name(regex_group_names(pattern), name) {
            None => None,
            Some(i) => if 0 <= i < g.len() {
                g[i]
            } else {
                None
            },
        },
    }
}

proof fn lemma_first_index_of_name(names: Seq<Option<Seq<char>>>, name: Seq<char>, k: int)
    requires
        0 <= k <= names.len(),
        forall|j: int| 0 <= j < k ==> names[j] != Some(name),
    ensures
        k < names.len() && names[k] == Some(name) ==> first_index_of_name(names, name) == Some(k),
        k == names.len() ==> first_index_of_name(names, name) is None,
    decreases k,
{
    if k > 0 {
        lemma_first_index_of_name(names.drop_first(), name, k - 1);
    }
}

/// The text of the group called `name` in the first match of `p` in `text`, as
/// `&captures[name]` gives it; `None` where there is no match or no such group in it.
pub(crate) fn capture_named(p: &Pattern, text: &str, name: &str) -> (r: Option<String>)
    ensures
        opt_string_view(r) == named_group(p.source(), text@, name@),
{
    let caps = captures(p, text);
    let groups = match caps {
        Some(g) => g,
        None => {
            return None;
        },
    };
    assert(captures_view(Some(groups)) == regex_captures(p.source(), text@));
    let names = group_names(p);
    let wanted: String = name.to_owned();
    let ghost nv = names@.map_values(|g: Option<String>| opt_string_view(g));
    let mut i: usize = 0;
    while i < names.len()
        invariant
            i <= names@.len(),
            nv == names@.map_values(|g: Option<String>| opt_string_view(g)),
            nv == regex_group_names(p.source()),
            captures_view(Some(groups)) == regex_captures(p.source(), text@),
            wanted@ == name@,
            forall|j: int| 0 <= j < i ==> nv[j] != Some(name@),
        decreases names@.len() - i,
    {
        let is_it = match &names[i] {
            Some(n) => *n == wanted,
            None => false,
        };
        if is_it {
            proof {
                lemma_first_index_of_name(nv, name@, i as int);
            }
            if i < groups.len() {
                return match &groups[i] {
                    Some(g) => Some(g.clone()),
                    None => None,
                };
            } else {
                return None;
            }
        }
        assert(nv[i as int] != Some(name@));
        i += 1;
    }
    proof {
        lemma_first_index_of_name(nv, name@, nv.len() as int);
    }
    None
}

} // verus!
