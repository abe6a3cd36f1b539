//! The error that every stage of the compiler reports: a position and a message.
use vstd::prelude::*;
use crate::text::{nat_text, push_usize_text};

verus! {

#[derive(Debug, Clone, PartialEq, Eq)]
pub struct CompileError {
    pub line: usize,
    pub col: usize,
    pub message: String,
}

/// What a `CompileError` says, as plain values.
pub struct ErrorView {
    pub line: int,
    pub col: int,
    pub message: Seq<char>,
}

pub open spec fn error_at(line: int, col: int, message: Seq<char>) -> ErrorView {
    ErrorView { line, col, message }
}

impl View for CompileError {
    type V = ErrorView;

    open spec fn view(&self) -> ErrorView {
        ErrorView { line: self.line as int, col: self.col as int, message: self.message@ }
    }
}

/// The text of an error as it is shown to the user: `line:col: message`.
pub open spec fn error_text(e: ErrorView) -> Seq<char> {
    nat_text(e.line as nat) + ":"@ + nat_text(e.col as nat) + ": "@ + e.message
}

impl CompileError {
    pub fn new(line: usize, col: usize, message: String) -> (e: Self)
        ensures
            e@ == error_at(line as int, col as int, message@),
    {
        CompileError { line, col, message }
    }

    /// Renders the error as `line:col: message`.
    pub fn render(&self) -> (s: String)
        ensures
            s@ == error_text(self@),
    {
        let mut s = String::new();
        push_usize_text(&mut s, self.line);
        s.append(":");
        push_usize_text(&mut s, self.col);
        s.append(": ");
        s.append(self.message.as_str());
        s
    }
}

} // verus!
