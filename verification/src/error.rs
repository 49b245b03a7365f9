//! Errors of the library.
use vstd::prelude::*;
use crate::number::IntErrorKind;

verus! {

/// Why an operation of the library failed.
#[derive(Debug)]
pub enum KyberError {
    /// A number did not parse (`str::parse::<usize>`).
    ParseInt(IntErrorKind),
    /// "Invalid line column '{0}'": not of the form `line:column`.
    InvalidLineCol(String),
    /// "Invalid plugin action '{0}'": not of the form `plugin/action`.
    InvalidPluginAction(String),
    /// "Invalid action: {0:?}": empty, or holding whitespace or control characters.
    InvalidAction(String),
    /// "Line {0} out of range".
    LineOutOfRange(usize),
    /// "Column {column} out of range for line {line}".
    ColumnOutOfRange { column: usize, line: usize },
    /// "Location {line},{column} out of file range".
    LocationOutOfFile { line: usize, column: usize },
    /// A regular expression did not compile.
    Regex(regex::Error),
}

} // verus!
