//! The command-line interface shared by the tool and its plugins: actions, the
//! arguments, and `line:column` positions.
use vstd::prelude::*;
use vstd::string::StringExecFns;
use crate::error::KyberError;
use crate::number::{
    IntErrorKind,
    decimal_string,
    format_usize,
    law_parse_format_usize,
    lemma_decimal_string,
    parse_usize,
    parse_usize_spec,
};
use crate::plugin_action::PluginAction;
use crate::text::{lemma_split_two, push_char, split_by_char, split_spec, views};

verus! {

/// An action that a plugin offers.
pub trait Action {
    fn name(&self) -> &'static str;
}

/// The arguments of a plugin: list the actions it offers at a position of a file,
/// or perform one.
pub enum Arguments {
    Options(Options),
    Do { action: PluginAction, filename: String, line_col: LineCol },
}

/// A file and a position in it.
pub struct Options {
    pub filename: String,
    pub line_col: LineCol,
}

/// A position in a file, written `line:column`.
#[derive(Debug)]
pub struct LineCol {
    line: usize,
    column: usize,
}

impl View for LineCol {
    type V = (usize, usize);

    closed spec fn view(&self) -> (usize, usize) {
        (self.line, self.column)
    }
}

/// How a text reads as `line:column`: `None` unless it is two parts around one `:`;
/// otherwise the line, then the column, read as `usize`.
pub open spec fn line_col_spec(s: Seq<char>) -> Option<Result<(usize, usize), IntErrorKind>> {
    let parts = split_spec(s, ':');
    if parts.len() != 2 {
        None
    } else {
        match parse_usize_spec(parts[0]) {
            Err(k) => Some(Err(k)),
            Ok(line) => match parse_usize_spec(parts[1]) {
                Err(k) => Some(Err(k)),
                Ok(column) => Some(Ok((line, column))),
            },
        }
    }
}

/// `line:column` in decimal.
pub open spec fn line_col_text(line: usize, column: usize) -> Seq<char> {
    decimal_string(line as nat) + seq![':'] + decimal_string(column as nat)
}

impl LineCol {
    /// The position written `line:column`.
    pub fn to_string(&self) -> (r: String)
        ensures
            r@ == line_col_text(self@.0, self@.1),
    {
        let mut s = format_usize(self.line);
        push_char(&mut s, ':');
        let c = format_usize(self.column);
        s.append(c.as_str());
        s
    }
}

impl std::str::FromStr for LineCol {
    type Err = KyberError;

    /// Reads `line:column`.
    fn from_str(s: &str) -> (r: Result<LineCol, KyberError>)
        ensures
            match line_col_spec(s@) {
                None => r matches Err(KyberError::InvalidLineCol(t)) && t@ == s@,
                Some(Err(k)) => r matches Err(KyberError::ParseInt(k2)) && k2 == k,
                Some(Ok(p)) => r matches Ok(lc) && lc@ == p,
            },
    {
        let parts = split_by_char(s, ':');
        assert(views(parts@).len() == parts@.len());
        if parts.len() != 2 {
            return Err(KyberError::InvalidLineCol(s.to_owned()));
        }
        assert(views(parts@)[0] == parts@[0]@);
        assert(views(parts@)[1] == parts@[1]@);
        let line = match parse_usize(parts[0].as_str()) {
            Ok(v) => v,
            Err(k) => {
                return Err(KyberError::ParseInt(k));
            },
        };
        let column = match parse_usize(parts[1].as_str()) {
            Ok(v) => v,
            Err(k) => {
                return Err(KyberError::ParseInt(k));
            },
        };
        Ok(LineCol { line, column })
    }
}

/// Reading back the `line:column` text of a position gives the position.
pub proof fn law_line_col_round_trip(line: usize, column: usize)
    ensures
        line_col_spec(line_col_text(line, column)) == Some(
            Ok::<(usize, usize), IntErrorKind>((line, column)),
        ),
{
    let x = decimal_string(line as nat);
    let y = decimal_string(column as nat);
    lemma_decimal_string(line as nat);
    lemma_decimal_string(column as nat);
    assert(!x.contains(':')) by {
        if x.contains(':') {
            let j = choose|j: int| 0 <= j < x.len() && x[j] == ':';
            assert(crate::number::is_digit(x[j]));
        }
    }
    assert(!y.contains(':')) by {
        if y.contains(':') {
            let j = choose|j: int| 0 <= j < y.len() && y[j] == ':';
            assert(crate::number::is_digit(y[j]));
        }
    }
    lemma_split_two(x, y, ':');
    law_parse_format_usize(line);
    law_parse_format_usize(column);
}

} // verus!
