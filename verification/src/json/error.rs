//! Error types of the two parsers.
use crate::error::{shortened, uncamelized, ErrorString};
use crate::lexer::{Cursor, Position};
use crate::text::{decimal, push_decimal, push_repeated, repeated};
use vstd::prelude::*;

verus! {

/// What went wrong while reading a document.
#[derive(Debug, PartialEq, Eq, Clone, Copy)]
pub enum JsonErrorType {
    /// The text does not follow the grammar.
    SyntaxError,
    /// An object names the same key twice.
    DuplicateKeyError,
    /// A comma is not followed by another element or member.
    TrailingCommaError,
}

/// A failure to read a document: what went wrong, where, and the line of
/// the text it happened on.
#[derive(Debug)]
pub struct JsonParseError {
    pub line: String,
    pub position: Position,
    pub error_type: JsonErrorType,
}

/// What went wrong while reading a query.
#[derive(Debug, PartialEq, Eq, Clone, Copy)]
pub enum JsonQueryErrorType {
    /// The text does not follow the grammar of queries.
    SyntaxError,
}

/// A failure to read a query: the query itself and the offset it failed at.
#[derive(Debug)]
pub struct JsonQueryError {
    pub line: String,
    pub cursor: Cursor,
    pub error_type: JsonQueryErrorType,
}

/// Where the window on a long line begins, for an error in column `col`:
/// twenty-six characters before it, or at the start of the line.
pub open spec fn window_start(col: int) -> int {
    if col > 26 {
        col - 26
    } else {
        0
    }
}

/// How many spaces stand in front of the caret that points at column
/// `col` of a line of `len` characters: one less than the column, which
/// counts as at most twenty-five on a line of more than fifty characters.
pub open spec fn caret_indent(col: int, len: int) -> nat {
    let position = if len > 50 && col > 25 { 25 } else { col };
    if position >= 1 {
        (position - 1) as nat
    } else {
        0
    }
}

/// The name of a kind of error, in camel case.
pub open spec fn kind_name(kind: JsonErrorType) -> Seq<char> {
    match kind {
        JsonErrorType::SyntaxError => "SyntaxError"@,
        JsonErrorType::DuplicateKeyError => "DuplicateKeyError"@,
        JsonErrorType::TrailingCommaError => "TrailingCommaError"@,
    }
}

/// The heading of the message for a failure to read a document.
pub open spec fn parse_error_heading(row: nat, col: nat, kind: JsonErrorType) -> Seq<char> {
    decimal(row) + ":"@ + decimal(col) + " Json "@ + uncamelized(kind_name(kind)) + " \n"@
}

/// The line of the message that shows the text around the failure.
pub open spec fn parse_error_source(row: nat, col: nat, line: Seq<char>) -> Seq<char> {
    decimal(row) + ".\t| "@ + shortened(line, window_start(col as int)) + "\n"@
}

/// The line of the message that points at the failure.
pub open spec fn parse_error_caret(col: nat, line: Seq<char>) -> Seq<char> {
    "\t| "@ + repeated(" "@, caret_indent(col as int, line.len() as int)) + "^"@
}

/// The message for a failure to read a document: a heading with the place
/// and the kind of the error, the line of text, and a caret under the
/// place.
pub open spec fn parse_error_text(row: nat, col: nat, kind: JsonErrorType, line: Seq<char>) -> Seq<
    char,
> {
    parse_error_heading(row, col, kind) + parse_error_source(row, col, line) + parse_error_caret(
        col,
        line,
    )
}

/// The message for a failure to read a query: a heading with the offset,
/// the query, and a caret under the offset.
pub open spec fn query_error_text(cursor: nat, line: Seq<char>) -> Seq<char> {
    decimal(cursor) + " JsonQuery "@ + uncamelized("SyntaxError"@) + "\n"@ + "near: '"@
        + shortened(line, window_start(cursor as int)) + "'\n"@ + "       "@ + repeated(
        " "@,
        caret_indent(cursor as int, line.len() as int),
    ) + "^"@
}

/// How many spaces stand in front of the caret.
fn indent_of(col: usize, line: &String) -> (indent: usize)
    ensures
        indent == caret_indent(col as int, line@.len() as int),
{
    let position: usize = if line.as_str().unicode_len() > 50 && col > 25 {
        25
    } else {
        col
    };
    if position >= 1 {
        position - 1
    } else {
        0
    }
}

/// Where the window on a long line begins.
fn start_of(col: usize) -> (start: usize)
    ensures
        start == window_start(col as int),
{
    if col > 26 {
        col - 26
    } else {
        0
    }
}

impl JsonErrorType {
    /// The name of the kind, in camel case.
    pub fn name(&self) -> (name: &'static str)
        ensures
            name@ == kind_name(*self),
    {
        match self {
            JsonErrorType::SyntaxError => "SyntaxError",
            JsonErrorType::DuplicateKeyError => "DuplicateKeyError",
            JsonErrorType::TrailingCommaError => "TrailingCommaError",
        }
    }
}

impl JsonParseError {
    /// The message that is shown for the error.
    pub fn message(&self) -> (text: String)
        ensures
            text@ == parse_error_text(
                self.position.row as nat,
                self.position.col as nat,
                self.error_type,
                self.line@,
            ),
    {
        let mut text = String::new();
        push_decimal(&mut text, self.position.row as u128);
        text.append(":");
        push_decimal(&mut text, self.position.col as u128);
        text.append(" Json ");
        text.append(self.error_type.name().to_owned().uncamelize().as_str());
        text.append(" \n");
        assert(text@ =~= parse_error_heading(
            self.position.row as nat,
            self.position.col as nat,
            self.error_type,
        ));
        let ghost heading = text@;
        push_decimal(&mut text, self.position.row as u128);
        text.append(".\t| ");
        text.append(self.line.shorten(start_of(self.position.col)).as_str());
        text.append("\n");
        assert(text@ =~= heading + parse_error_source(
            self.position.row as nat,
            self.position.col as nat,
            self.line@,
        ));
        let ghost shown = text@;
        text.append("\t| ");
        push_repeated(&mut text, " ", indent_of(self.position.col, &self.line));
        text.append("^");
        assert(text@ =~= shown + parse_error_caret(self.position.col as nat, self.line@));
        text
    }
}

impl JsonQueryError {
    /// The message that is shown for the error.
    pub fn message(&self) -> (text: String)
        ensures
            text@ == query_error_text(self.cursor as nat, self.line@),
    {
        let mut text = String::new();
        push_decimal(&mut text, self.cursor as u128);
        text.append(" JsonQuery ");
        text.append("SyntaxError".to_owned().uncamelize().as_str());
        text.append("\n");
        text.append("near: '");
        text.append(self.line.shorten(start_of(self.cursor)).as_str());
        text.append("'\n");
        text.append("       ");
        push_repeated(&mut text, " ", indent_of(self.cursor, &self.line));
        text.append("^");
        assert(text@ =~= query_error_text(self.cursor as nat, self.line@));
        text
    }
}

} // verus!
