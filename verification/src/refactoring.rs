//! Refactorings of source text: extracting a variable or a function, renaming or
//! inlining a variable within its scope.
use vstd::prelude::*;
use vstd::utf8::*;
use vstd::string::{StringExecFns, StringSliceAdditionalSpecFns};
use std::ops::RangeInclusive;
use crate::byte_text::{lemma_str_bytes, str_slice};
use crate::containing_scope::{containing_scope, lemma_scope_bounds, scope_end, scope_start};
use crate::error::KyberError;
use crate::file_location::{FileLocation, get, get_defined, get_spec, index_defined, index_spec};
use crate::replace_range::{Bound, ReplaceRange};
use crate::pattern::{
    Pattern,
    capture_named,
    compile,
    named_group,
    opt_string_view,
    regex_compiles,
    regex_replace_every,
    regex_replace_first,
    replace_every,
    replace_first,
};
use crate::text::{
    join_spec,
    join_with,
    law_replace_with_itself,
    law_split_join,
    law_split_pieces_lack_separator,
    replace_all,
    replace_spec,
    split_by_char,
    split_spec,
    views,
};

verus! {

/// The scope around the bytes from offset `si` through offset `ei`: its start and end.
pub open spec fn scope_of(b: Seq<u8>, si: int, ei: int) -> (int, int) {
    (scope_start(b, si, ei + 1), scope_end(b, si, ei + 1))
}

/// The text of that scope.
pub open spec fn scope_text(b: Seq<u8>, si: int, ei: int) -> Seq<char> {
    decode_utf8(b.subrange(scope_of(b, si, ei).0, scope_of(b, si, ei).1))
}

/// The text with that scope replaced by `middle`.
pub open spec fn with_scope(b: Seq<u8>, si: int, ei: int, middle: Seq<char>) -> Seq<char> {
    decode_utf8(b.subrange(0, scope_of(b, si, ei).0)) + middle + decode_utf8(
        b.subrange(scope_of(b, si, ei).1, b.len() as int),
    )
}

/// Where `replace_containing_scope` runs without panicking: the locations' offsets
/// are computable, and the text can be cut at them.
pub open spec fn scope_replace_defined(b: Seq<u8>, start: FileLocation, end: FileLocation) -> bool {
    &&& index_defined(b, start)
    &&& index_spec(b, start) is Ok ==> index_defined(b, end)
    &&& index_spec(b, start) matches Ok(si) ==> (index_spec(b, end) matches Ok(ei) ==> {
        &&& is_char_boundary(b, si as int)
        &&& is_char_boundary(b, ei + 1)
        &&& scope_start(b, si as int, ei + 1) <= scope_end(b, si as int, ei + 1)
    })
}

/// Replaces the innermost brace scope around the text from `range`'s start through
/// its end location by what `replace_fn` makes of that scope's text.
pub fn replace_containing_scope<F: FnOnce(&str) -> String>(
    contents: &str,
    range: RangeInclusive<FileLocation>,
    replace_fn: F,
) -> (r: Result<String, KyberError>)
    requires
        !range@.exhausted,
        scope_replace_defined(contents.spec_bytes(), range@.start, range@.end),
        index_spec(contents.spec_bytes(), range@.start) matches Ok(si) ==> (index_spec(
            contents.spec_bytes(),
            range@.end,
        ) matches Ok(ei) ==> forall|t: &str|
            t@ == scope_text(contents.spec_bytes(), si as int, ei as int)
                ==> #[trigger] replace_fn.requires((t,))),
    ensures
        match index_spec(contents.spec_bytes(), range@.start) {
            Err(e) => r matches Err(e2) && e2 == e,
            Ok(si) => match index_spec(contents.spec_bytes(), range@.end) {
                Err(e) => r matches Err(e2) && e2 == e,
                Ok(ei) => r matches Ok(out) && exists|t: &str, m: String|
                    {
                        &&& t@ == scope_text(contents.spec_bytes(), si as int, ei as int)
                        &&& #[trigger] replace_fn.ensures((t,), m)
                        &&& out@ == with_scope(contents.spec_bytes(), si as int, ei as int, m@)
                    },
            },
        },
{
    let ghost b = contents.spec_bytes();
    let len = contents.as_bytes().len();
    let start_index = match crate::file_location::range_start(&range).index(contents) {
        Ok(i) => i,
        Err(e) => {
            return Err(e);
        },
    };
    let end_index = match crate::file_location::range_end(&range).index(contents) {
        Ok(i) => i,
        Err(e) => {
            return Err(e);
        },
    };
    proof {
        lemma_str_bytes(contents);
    }
    assert(end_index < len);
    let scope = containing_scope(contents, start_index..(end_index + 1));
    let index = (Bound::Included(scope.start), Bound::Excluded(scope.end));
    let replaced = contents.replace_range(index, replace_fn);
    Ok(replaced.unwrap())
}

/// The lines of `text` with `new_line` put in as line `line`.
pub open spec fn insert_line_spec(text: Seq<char>, line: int, new_line: Seq<char>) -> Seq<char> {
    join_spec(split_spec(text, '\n').insert(line, new_line), '\n')
}

/// Puts `new_line` in as line `line` of `text` (counted from 0).
pub fn insert_line(text: &str, line: usize, new_line: String) -> (r: String)
    requires
        line <= split_spec(text@, '\n').len(),
    ensures
        r@ == insert_line_spec(text@, line as int, new_line@),
{
    let mut lines = split_by_char(text, '\n');
    let ghost before = lines@;
    assert(views(before).len() == before.len());
    lines.insert(line, new_line);
    assert(views(lines@) =~= views(before).insert(line as int, new_line@));
    join_with(&lines, '\n')
}

/// After a line without newlines is put in as line `line`, the lines of the text are
/// its former lines with that line inserted at `line`.
pub proof fn law_insert_line(text: Seq<char>, line: int, new_line: Seq<char>)
    requires
        0 <= line <= split_spec(text, '\n').len(),
        !new_line.contains('\n'),
    ensures
        split_spec(insert_line_spec(text, line, new_line), '\n') == split_spec(text, '\n').insert(
            line,
            new_line,
        ),
{
    let pieces = split_spec(text, '\n');
    let with_new = pieces.insert(line, new_line);
    law_split_pieces_lack_separator(text, '\n');
    assert forall|i: int| 0 <= i < with_new.len() implies !(#[trigger] with_new[i]).contains('\n') by {
        if i < line {
            assert(with_new[i] == pieces[i]);
        } else if i > line {
            assert(with_new[i] == pieces[i - 1]);
        }
    }
    law_split_join(with_new, '\n');
}

/// `let {name} = {expr};`
pub open spec fn variable_declaration(name: Seq<char>, expr: Seq<char>) -> Seq<char> {
    "let "@ + name + " = "@ + expr + ";"@
}

/// `{name}();`
pub open spec fn function_call(name: Seq<char>) -> Seq<char> {
    name + "();"@
}

/// `fn {name}() {` newline `{body}` newline `}`
pub open spec fn function_declaration(name: Seq<char>, body: Seq<char>) -> Seq<char> {
    "fn "@ + name + "() {\n"@ + body + "\n}"@
}

/// The pattern of the declaration of variable `name`: `let {name} = (?P<expr>.+);`
pub open spec fn declaration_pattern(name: Seq<char>) -> Seq<char> {
    "let "@ + name + " = (?P<expr>.+);"@
}

/// The pattern of `name` as a whole word: `\b{name}\b`
pub open spec fn word_pattern(name: Seq<char>) -> Seq<char> {
    "\\b"@ + name + "\\b"@
}

/// The patterns that inlining hands to the regular-expression engine, character by
/// character: the declaration is `let`, a space, the name, ` = `, a capture group named
/// `expr` of one or more characters other than a newline, and `;`; a use of the name
/// is the name between two word boundaries (`\\b`), so that an occurrence inside a
/// longer identifier, next to a letter, digit or underscore, is not a use.
pub proof fn law_inline_patterns(name: Seq<char>)
    ensures
        word_pattern(name) == seq!['\\', 'b'] + name + seq!['\\', 'b'],
        declaration_pattern(name) == seq!['l', 'e', 't', ' '] + name + seq![
            ' ',
            '=',
            ' ',
            '(',
            '?',
            'P',
            '<',
            'e',
            'x',
            'p',
            'r',
            '>',
            '.',
            '+',
            ')',
            ';',
        ],
{
    reveal_strlit("\\b");
    reveal_strlit("let ");
    reveal_strlit(" = (?P<expr>.+);");
    assert(word_pattern(name) =~= seq!['\\', 'b'] + name + seq!['\\', 'b']);
    assert(declaration_pattern(name) =~= seq!['l', 'e', 't', ' '] + name + seq![
        ' ',
        '=',
        ' ',
        '(',
        '?',
        'P',
        '<',
        'e',
        'x',
        'p',
        'r',
        '>',
        '.',
        '+',
        ')',
        ';',
    ]);
}

/// The texts that extracting writes, character by character: the declaration
/// `let NAME = EXPR;`, the call `NAME();` and the function `fn NAME() {`, a newline,
/// the body, a newline and `}`.
pub proof fn law_extract_texts(name: Seq<char>, text: Seq<char>)
    ensures
        variable_declaration(name, text) == seq!['l', 'e', 't', ' '] + name + seq![' ', '=', ' '] + text
            + seq![';'],
        function_call(name) == name + seq!['(', ')', ';'],
        function_declaration(name, text) == seq!['f', 'n', ' '] + name + seq!['(', ')', ' ', '{', '\n']
            + text + seq!['\n', '}'],
{
    reveal_strlit("let ");
    reveal_strlit(" = ");
    reveal_strlit(";");
    reveal_strlit("();");
    reveal_strlit("fn ");
    reveal_strlit("() {\n");
    reveal_strlit("\n}");
    assert(variable_declaration(name, text) =~= seq!['l', 'e', 't', ' '] + name + seq![' ', '=', ' ']
        + text + seq![';']);
    assert(function_call(name) =~= name + seq!['(', ')', ';']);
    assert(function_declaration(name, text) =~= seq!['f', 'n', ' '] + name + seq![
        '(',
        ')',
        ' ',
        '{',
        '\n',
    ] + text + seq!['\n', '}']);
}

/// What inlining puts in: the declaration it finds is replaced by nothing, and each
/// use of the name by the declared expression between `(` and `)`.
pub proof fn law_inlined_scope_text(b: Seq<u8>, start: int, end: int)
    ensures
        ({
            let name = inlined_name(b, start, end);
            let scope = scope_text(b, start, end);
            let expr = named_group(declaration_pattern(name), scope, seq!['e', 'x', 'p', 'r'])->Some_0;
            inlined_scope(b, start, end) == regex_replace_every(
                word_pattern(name),
                regex_replace_first(declaration_pattern(name), scope, Seq::<char>::empty()),
                seq!['('] + expr + seq![')'],
            )
        }),
{
    reveal_strlit("expr");
    reveal_strlit("");
    reveal_strlit("(");
    reveal_strlit(")");
    assert("expr"@ =~= seq!['e', 'x', 'p', 'r']);
    assert(""@ =~= Seq::<char>::empty());
    assert("("@ =~= seq!['(']);
    assert(")"@ =~= seq![')']);
}

/// The characters selected from `start` through `end`, where `get` finds them.
pub open spec fn selected_chars(b: Seq<u8>, start: FileLocation, end: FileLocation) -> Seq<char> {
    decode_utf8(get_spec(b, start, end)->Ok_0)
}

/// Where extracting the selection into a line of its own does not panic.
pub open spec fn extract_defined(
    b: Seq<u8>,
    contents: Seq<char>,
    start: FileLocation,
    end: FileLocation,
    replacement: Seq<char>,
) -> bool {
    &&& get_defined(b, start, end)
    &&& get_spec(b, start, end) is Ok ==> start.line <= split_spec(
        replace_spec(contents, selected_chars(b, start, end), replacement),
        '\n',
    ).len()
}

fn concat3(a: &str, b: &str, c: &str) -> (r: String)
    ensures
        r@ == a@ + b@ + c@,
{
    let mut s = a.to_owned();
    s.append(b);
    s.append(c);
    s
}

/// Extracts the text from `start` through `end` into a variable `new_name`: every
/// occurrence of that text becomes `new_name`, and the declaration
/// `let {new_name} = {text};` is put in as line `start.line`.
pub fn extract_variable(contents: &str, start: FileLocation, end: FileLocation, new_name: &str) -> (r:
    Result<String, KyberError>)
    requires
        extract_defined(contents.spec_bytes(), contents@, start, end, new_name@),
    ensures
        match get_spec(contents.spec_bytes(), start, end) {
            Err(e) => r matches Err(e2) && e2 == e,
            Ok(sel) => r matches Ok(out) && out@ == insert_line_spec(
                replace_spec(contents@, decode_utf8(sel), new_name@),
                start.line as int,
                variable_declaration(new_name@, decode_utf8(sel)),
            ),
        },
{
    let expression = get(contents, RangeInclusive::new(start, end))?;
    proof {
        lemma_str_bytes(expression);
    }
    let mut declaration = concat3("let ", new_name, " = ");
    declaration.append(expression);
    declaration.append(";");
    let new_content = replace_all(contents, expression, new_name);
    Ok(insert_line(new_content.as_str(), start.line, declaration))
}

/// Extracts the text from `start` through `end` into a function `new_name`: every
/// occurrence of that text becomes the call `{new_name}();`, and the function's
/// declaration is put in as line `start.line`.
pub fn extract_function(contents: &str, start: FileLocation, end: FileLocation, new_name: &str) -> (r:
    Result<String, KyberError>)
    requires
        extract_defined(contents.spec_bytes(), contents@, start, end, function_call(new_name@)),
    ensures
        match get_spec(contents.spec_bytes(), start, end) {
            Err(e) => r matches Err(e2) && e2 == e,
            Ok(sel) => r matches Ok(out) && out@ == insert_line_spec(
                replace_spec(contents@, decode_utf8(sel), function_call(new_name@)),
                start.line as int,
                function_declaration(new_name@, decode_utf8(sel)),
            ),
        },
{
    let body = get(contents, RangeInclusive::new(start, end))?;
    proof {
        lemma_str_bytes(body);
    }
    let mut call = new_name.to_owned();
    call.append("();");
    let mut declaration = concat3("fn ", new_name, "() {\n");
    declaration.append(body);
    declaration.append("\n}");
    let new_content = replace_all(contents, body, call.as_str());
    Ok(insert_line(new_content.as_str(), start.line, declaration))
}

proof fn lemma_get_scope(b: Seq<u8>, start: FileLocation, end: FileLocation)
    requires
        valid_utf8(b),
        get_defined(b, start, end),
        get_spec(b, start, end) is Ok,
    ensures
        scope_replace_defined(b, start, end),
        index_spec(b, start) is Ok,
        index_spec(b, end) is Ok,
{
    let si = index_spec(b, start)->Ok_0 as int;
    let ei = index_spec(b, end)->Ok_0 as int;
    crate::file_location::lemma_line_start(b, start.line as nat);
    crate::file_location::lemma_line_start(b, end.line as nat);
    lemma_scope_bounds(b, si, ei + 1);
}

/// Renames, within the innermost brace scope around the text from `start` through
/// `end`, every occurrence of that text to `new_name`.
pub fn rename_variable(contents: &str, start: FileLocation, end: FileLocation, new_name: &str) -> (r:
    Result<String, KyberError>)
    requires
        get_defined(contents.spec_bytes(), start, end),
    ensures
        match get_spec(contents.spec_bytes(), start, end) {
            Err(e) => r matches Err(e2) && e2 == e,
            Ok(sel) => {
                let b = contents.spec_bytes();
                let si = index_spec(b, start)->Ok_0 as int;
                let ei = index_spec(b, end)->Ok_0 as int;
                r matches Ok(out) && out@ == with_scope(
                    b,
                    si,
                    ei,
                    replace_spec(scope_text(b, si, ei), decode_utf8(sel), new_name@),
                )
            },
        },
{
    let old_name = get(contents, RangeInclusive::new(start, end))?;
    proof {
        lemma_str_bytes(contents);
        lemma_str_bytes(old_name);
        lemma_get_scope(contents.spec_bytes(), start, end);
    }
    let rename = |s: &str| -> (o: String)
        ensures
            o@ == replace_spec(s@, old_name@, new_name@),
        { replace_all(s, old_name, new_name) };
    replace_containing_scope(contents, RangeInclusive::new(start, end), rename)
}

/// Where inlining by `inline_variable_at` does not panic: the declaration of the
/// selected name must be found in its scope, with an expression.
pub open spec fn inline_at_defined(b: Seq<u8>, start: FileLocation, end: FileLocation) -> bool {
    &&& get_defined(b, start, end)
    &&& get_spec(b, start, end) is Ok && regex_compiles(
        declaration_pattern(selected_chars(b, start, end)),
    ) ==> named_group(
        declaration_pattern(selected_chars(b, start, end)),
        scope_text(
            b,
            index_spec(b, start)->Ok_0 as int,
            index_spec(b, end)->Ok_0 as int,
        ),
        "expr"@,
    ) is Some
}

/// Inlines the variable whose name is the text from `start` through `end`: within the
/// innermost brace scope around it, the first `let {name} = {expr};` is removed and
/// every occurrence of the name becomes the expression.
pub fn inline_variable_at(contents: &str, start: FileLocation, end: FileLocation) -> (r: Result<
    String,
    KyberError,
>)
    requires
        inline_at_defined(contents.spec_bytes(), start, end),
    ensures
        match get_spec(contents.spec_bytes(), start, end) {
            Err(e) => r matches Err(e2) && e2 == e,
            Ok(sel) => {
                let b = contents.spec_bytes();
                let si = index_spec(b, start)->Ok_0 as int;
                let ei = index_spec(b, end)->Ok_0 as int;
                let pat = declaration_pattern(decode_utf8(sel));
                let scope = scope_text(b, si, ei);
                &&& !regex_compiles(pat) ==> (r matches Err(KyberError::Regex(_)))
                &&& regex_compiles(pat) ==> (r matches Ok(out) && out@ == with_scope(
                    b,
                    si,
                    ei,
                    replace_spec(
                        regex_replace_first(pat, scope, ""@),
                        decode_utf8(sel),
                        named_group(pat, scope, "expr"@)->Some_0,
                    ),
                ))
            },
        },
{
    let name = get(contents, RangeInclusive::new(start, end))?;
    proof {
        lemma_str_bytes(contents);
        lemma_str_bytes(name);
        lemma_get_scope(contents.spec_bytes(), start, end);
    }
    let matcher = match compile(concat3("let ", name, " = (?P<expr>.+);")) {
        Ok(p) => p,
        Err(e) => {
            return Err(KyberError::Regex(e));
        },
    };
    let m = &matcher;
    let inline = |s: &str| -> (o: String)
        requires
            named_group(m.source(), s@, "expr"@) is Some,
        ensures
            o@ == replace_spec(
                regex_replace_first(m.source(), s@, ""@),
                name@,
                named_group(m.source(), s@, "expr"@)->Some_0,
            ),
        {
            let expression = capture_named(m, s, "expr").unwrap();
            let without = replace_first(m, s, "");
            replace_all(without.as_str(), name, expression.as_str())
        };
    replace_containing_scope(contents, RangeInclusive::new(start, end), inline)
}

/// `inline_variable_at` where it does not panic: `None` where the declaration of the
/// selected name is not found in its scope.
pub fn try_inline_variable_at(contents: &str, start: FileLocation, end: FileLocation) -> (r: Option<
    Result<String, KyberError>,
>)
    requires
        get_defined(contents.spec_bytes(), start, end),
    ensures
        r is None <==> !inline_at_defined(contents.spec_bytes(), start, end),
        r matches Some(x) ==> match get_spec(contents.spec_bytes(), start, end) {
            Err(e) => x matches Err(e2) && e2 == e,
            Ok(sel) => {
                let b = contents.spec_bytes();
                let si = index_spec(b, start)->Ok_0 as int;
                let ei = index_spec(b, end)->Ok_0 as int;
                let pat = declaration_pattern(decode_utf8(sel));
                let scope = scope_text(b, si, ei);
                &&& !regex_compiles(pat) ==> (x matches Err(KyberError::Regex(_)))
                &&& regex_compiles(pat) ==> (x matches Ok(out) && out@ == with_scope(
                    b,
                    si,
                    ei,
                    replace_spec(
                        regex_replace_first(pat, scope, ""@),
                        decode_utf8(sel),
                        named_group(pat, scope, "expr"@)->Some_0,
                    ),
                ))
            },
        },
{
    let found = match get(contents, RangeInclusive::new(start, end)) {
        Err(_) => true,
        Ok(name) => {
            proof {
                lemma_str_bytes(contents);
                lemma_str_bytes(name);
                lemma_get_scope(contents.spec_bytes(), start, end);
            }
            match compile(concat3("let ", name, " = (?P<expr>.+);")) {
                Err(_) => true,
                Ok(matcher) => {
                    let len = contents.as_bytes().len();
                    let si = start.index(contents).unwrap();
                    let ei = end.index(contents).unwrap();
                    let scope = containing_scope(contents, si..(ei + 1));
                    let text = str_slice(contents, scope.start, scope.end);
                    capture_named(&matcher, text, "expr").is_some()
                },
            }
        },
    };
    if found {
        Some(inline_variable_at(contents, start, end))
    } else {
        None
    }
}

/// Where `&contents[start..=end]` can be sliced out.
pub open spec fn name_slice_defined(b: Seq<u8>, start: int, end: int) -> bool {
    &&& 0 <= start <= end + 1 <= b.len()
    &&& is_char_boundary(b, start)
    &&& is_char_boundary(b, end + 1)
}

/// The name that `inline_variable` inlines: the bytes from `start` through `end`.
pub open spec fn inlined_name(b: Seq<u8>, start: int, end: int) -> Seq<char> {
    decode_utf8(b.subrange(start, end + 1))
}

/// Where `inline_variable` finds the declaration of the name in its scope, given that
/// both of its patterns compile.
pub open spec fn inline_declaration_found(b: Seq<u8>, start: int, end: int) -> bool {
    let name = inlined_name(b, start, end);
    regex_compiles(declaration_pattern(name)) && regex_compiles(word_pattern(name)) ==> named_group(
        declaration_pattern(name),
        scope_text(b, start, end),
        "expr"@,
    ) is Some
}

/// What `inline_variable` makes of the scope: the first declaration
/// `let {name} = {expr};` removed, then every whole-word occurrence of the name
/// replaced by `({expr})`.
pub open spec fn inlined_scope(b: Seq<u8>, start: int, end: int) -> Seq<char> {
    let name = inlined_name(b, start, end);
    let scope = scope_text(b, start, end);
    regex_replace_every(
        word_pattern(name),
        regex_replace_first(declaration_pattern(name), scope, ""@),
        "("@ + named_group(declaration_pattern(name), scope, "expr"@)->Some_0 + ")"@,
    )
}

/// Inlines the variable whose name is the text at byte offsets `start` through `end`
/// of `contents`, within the innermost brace scope around it.
pub fn inline_variable(contents: &str, start: usize, end: usize) -> (r: Result<String, KyberError>)
    requires
        name_slice_defined(contents.spec_bytes(), start as int, end as int),
        inline_declaration_found(contents.spec_bytes(), start as int, end as int),
    ensures
        ({
            let b = contents.spec_bytes();
            let name = inlined_name(b, start as int, end as int);
            &&& !regex_compiles(declaration_pattern(name)) ==> (r matches Err(KyberError::Regex(_)))
            &&& regex_compiles(declaration_pattern(name)) && !regex_compiles(word_pattern(name)) ==> (
            r matches Err(KyberError::Regex(_)))
            &&& regex_compiles(declaration_pattern(name)) && regex_compiles(word_pattern(name)) ==> (
            r matches Ok(out) && out@ == with_scope(
                b,
                start as int,
                end as int,
                inlined_scope(b, start as int, end as int),
            ))
        }),
{
    let ghost b = contents.spec_bytes();
    let len = contents.as_bytes().len();
    let variable_name = str_slice(contents, start, end + 1);
    let expression_matcher = match compile(concat3("let ", variable_name, " = (?P<expr>.+);")) {
        Ok(p) => p,
        Err(e) => {
            return Err(KyberError::Regex(e));
        },
    };
    let variable_matcher = match compile(concat3("\\b", variable_name, "\\b")) {
        Ok(p) => p,
        Err(e) => {
            return Err(KyberError::Regex(e));
        },
    };
    proof {
        lemma_str_bytes(contents);
        lemma_scope_bounds(b, start as int, end + 1);
    }
    let scope = containing_scope(contents, start..(end + 1));
    let em = &expression_matcher;
    let vm = &variable_matcher;
    let inline = |s: &str| -> (o: String)
        requires
            named_group(em.source(), s@, "expr"@) is Some,
        ensures
            o@ == regex_replace_every(
                vm.source(),
                regex_replace_first(em.source(), s@, ""@),
                "("@ + named_group(em.source(), s@, "expr"@)->Some_0 + ")"@,
            ),
        {
            let expression = capture_named(em, s, "expr").unwrap();
            let parenthesized = concat3("(", expression.as_str(), ")");
            let without_expression = replace_first(em, s, "");
            replace_every(vm, without_expression.as_str(), parenthesized.as_str())
        };
    let replaced = contents.replace_range(
        (Bound::Included(scope.start), Bound::Excluded(scope.end)),
        inline,
    );
    Ok(replaced.unwrap())
}

/// `inline_variable` where it does not panic: `None` where the declaration of the name
/// is not found in its scope.
pub fn try_inline_variable(contents: &str, start: usize, end: usize) -> (r: Option<
    Result<String, KyberError>,
>)
    requires
        name_slice_defined(contents.spec_bytes(), start as int, end as int),
    ensures
        r is None <==> !inline_declaration_found(contents.spec_bytes(), start as int, end as int),
        r matches Some(x) ==> ({
            let b = contents.spec_bytes();
            let name = inlined_name(b, start as int, end as int);
            &&& !regex_compiles(declaration_pattern(name)) ==> (x matches Err(KyberError::Regex(_)))
            &&& regex_compiles(declaration_pattern(name)) && !regex_compiles(word_pattern(name)) ==> (
            x matches Err(KyberError::Regex(_)))
            &&& regex_compiles(declaration_pattern(name)) && regex_compiles(word_pattern(name)) ==> (
            x matches Ok(out) && out@ == with_scope(
                b,
                start as int,
                end as int,
                inlined_scope(b, start as int, end as int),
            ))
        }),
{
    let ghost b = contents.spec_bytes();
    let len = contents.as_bytes().len();
    let variable_name = str_slice(contents, start, end + 1);
    let found = match compile(concat3("let ", variable_name, " = (?P<expr>.+);")) {
        Err(_) => true,
        Ok(expression_matcher) => match compile(concat3("\\b", variable_name, "\\b")) {
            Err(_) => true,
            Ok(_) => {
                proof {
                    lemma_str_bytes(contents);
                    lemma_scope_bounds(b, start as int, end + 1);
                }
                let scope = containing_scope(contents, start..(end + 1));
                let text = str_slice(contents, scope.start, scope.end);
                capture_named(&expression_matcher, text, "expr").is_some()
            },
        },
    };
    if found {
        Some(inline_variable(contents, start, end))
    } else {
        None
    }
}

/// Renames every occurrence, anywhere in `contents`, of the text from `start` through
/// `end` to `new_name`.
pub fn rename_in_file(contents: &str, start: FileLocation, end: FileLocation, new_name: &str) -> (r:
    Result<String, KyberError>)
    requires
        get_defined(contents.spec_bytes(), start, end),
    ensures
        match get_spec(contents.spec_bytes(), start, end) {
            Err(e) => r matches Err(e2) && e2 == e,
            Ok(sel) => r matches Ok(out) && out@ == replace_spec(contents@, decode_utf8(sel), new_name@),
        },
{
    let old_name = get(contents, RangeInclusive::new(start, end))?;
    proof {
        lemma_str_bytes(old_name);
    }
    Ok(replace_all(contents, old_name, new_name))
}

/// Where inlining by `inline_in_file` does not panic: the declaration of the selected
/// name must be found in the text, with an expression.
pub open spec fn inline_in_file_defined(b: Seq<u8>, contents: Seq<char>, start: FileLocation, end: FileLocation) -> bool {
    &&& get_defined(b, start, end)
    &&& get_spec(b, start, end) is Ok && regex_compiles(
        declaration_pattern(selected_chars(b, start, end)),
    ) ==> named_group(declaration_pattern(selected_chars(b, start, end)), contents, "expr"@) is Some
}

/// Inlines, anywhere in `contents`, the variable whose name is the text from `start`
/// through `end`: the first `let {name} = {expr};` is removed and every occurrence of
/// the name becomes the expression.
pub fn inline_in_file(contents: &str, start: FileLocation, end: FileLocation) -> (r: Result<
    String,
    KyberError,
>)
    requires
        inline_in_file_defined(contents.spec_bytes(), contents@, start, end),
    ensures
        match get_spec(contents.spec_bytes(), start, end) {
            Err(e) => r matches Err(e2) && e2 == e,
            Ok(sel) => {
                let pat = declaration_pattern(decode_utf8(sel));
                &&& !regex_compiles(pat) ==> (r matches Err(KyberError::Regex(_)))
                &&& regex_compiles(pat) ==> (r matches Ok(out) && out@ == replace_spec(
                    regex_replace_first(pat, contents@, ""@),
                    decode_utf8(sel),
                    named_group(pat, contents@, "expr"@)->Some_0,
                ))
            },
        },
{
    let name = get(contents, RangeInclusive::new(start, end))?;
    proof {
        lemma_str_bytes(name);
    }
    let matcher = match compile(concat3("let ", name, " = (?P<expr>.+);")) {
        Ok(p) => p,
        Err(e) => {
            return Err(KyberError::Regex(e));
        },
    };
    let expression = capture_named(&matcher, contents, "expr").unwrap();
    let without = replace_first(&matcher, contents, "");
    Ok(replace_all(without.as_str(), name, expression.as_str()))
}

/// `inline_in_file` where it does not panic: `None` where the declaration of the
/// selected name is not found in the text.
pub fn try_inline_in_file(contents: &str, start: FileLocation, end: FileLocation) -> (r: Option<
    Result<String, KyberError>,
>)
    requires
        get_defined(contents.spec_bytes(), start, end),
    ensures
        r is None <==> !inline_in_file_defined(contents.spec_bytes(), contents@, start, end),
        r matches Some(x) ==> match get_spec(contents.spec_bytes(), start, end) {
            Err(e) => x matches Err(e2) && e2 == e,
            Ok(sel) => {
                let pat = declaration_pattern(decode_utf8(sel));
                &&& !regex_compiles(pat) ==> (x matches Err(KyberError::Regex(_)))
                &&& regex_compiles(pat) ==> (x matches Ok(out) && out@ == replace_spec(
                    regex_replace_first(pat, contents@, ""@),
                    decode_utf8(sel),
                    named_group(pat, contents@, "expr"@)->Some_0,
                ))
            },
        },
{
    let found = match get(contents, RangeInclusive::new(start, end)) {
        Err(_) => true,
        Ok(name) => {
            proof {
                lemma_str_bytes(name);
            }
            match compile(concat3("let ", name, " = (?P<expr>.+);")) {
                Err(_) => true,
                Ok(matcher) => capture_named(&matcher, contents, "expr").is_some(),
            }
        },
    };
    if found {
        Some(inline_in_file(contents, start, end))
    } else {
        None
    }
}

/// Renaming the selected name to itself gives the text back: the scope with every
/// occurrence of a name replaced by that name is the text as it was.
pub proof fn law_rename_to_same_name(b: Seq<u8>, start: FileLocation, end: FileLocation)
    requires
        valid_utf8(b),
        b.len() <= usize::MAX,
        get_defined(b, start, end),
        get_spec(b, start, end) is Ok,
    ensures
        ({
            let si = index_spec(b, start)->Ok_0 as int;
            let ei = index_spec(b, end)->Ok_0 as int;
            let name = selected_chars(b, start, end);
            with_scope(b, si, ei, replace_spec(scope_text(b, si, ei), name, name)) == decode_utf8(b)
        }),
{
    let si = index_spec(b, start)->Ok_0 as int;
    let ei = index_spec(b, end)->Ok_0 as int;
    let name = selected_chars(b, start, end);
    lemma_get_scope(b, start, end);
    crate::file_location::lemma_line_start(b, start.line as nat);
    crate::file_location::lemma_line_start(b, end.line as nat);
    law_replace_with_itself(scope_text(b, si, ei), name);
    lemma_scope_bounds(b, si, ei + 1);
    let ss = scope_start(b, si, ei + 1);
    let se = scope_end(b, si, ei + 1);
    let index = (Bound::Included(ss as usize), Bound::Excluded(se as usize));
    crate::replace_range::law_replace_range_identity(b, index);
}

} // verus!
