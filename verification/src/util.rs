//! The error value that the lexer and the parser report: a message together
//! with the line and column of the lexer at the point of failure.

use vstd::prelude::*;

verus! {

/// Mathematical model of an [`Error`]: the position where it was raised.
/// The message is diagnostic text for a human reader and is not part of
/// the model.
pub struct ErrorModel {
    pub line: int,
    pub col: int,
}

/// A failure during lexing or parsing. `line` is 1-based; `col` counts the
/// characters advanced over since the last newline.
#[derive(Debug, PartialEq)]
pub struct Error {
    pub msg: String,
    pub line: u32,
    pub col: u32,
}

impl View for Error {
    type V = ErrorModel;

    open spec fn view(&self) -> ErrorModel {
        ErrorModel { line: self.line as int, col: self.col as int }
    }
}

} // verus!
