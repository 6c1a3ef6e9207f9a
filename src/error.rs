use vstd::prelude::*;

use crate::span::Span;
use crate::text::{decimal, push_char, push_decimal, push_text};

verus! {

#[derive(Debug, Clone)]
pub enum ErrorKind {
    UnexpectedCharacter(char),
    InvalidNumber,
    UnknownCommand(String),
    UnexpectedToken { expected: String, found: String },
}

#[derive(Debug, Clone)]
pub struct Error {
    pub kind: ErrorKind,
    pub span: Span,
}

/// One-line description of an error, with the offset where it starts.
pub open spec fn error_summary(e: Error) -> Seq<char> {
    let at = " at position "@ + decimal(e.span.start as nat);
    match e.kind {
        ErrorKind::UnexpectedCharacter(c) => "unexpected character '"@ + seq![c] + "'"@ + at,
        ErrorKind::InvalidNumber => "invalid number"@ + at,
        ErrorKind::UnknownCommand(cmd) => "unknown command \\"@ + cmd@ + at,
        ErrorKind::UnexpectedToken { expected, found } => "expected "@ + expected@
            + ", but found "@ + found@ + at,
    }
}

impl Error {
    pub fn to_string(&self) -> (r: String)
        ensures
            r@ == error_summary(*self),
    {
        let mut out = String::new();
        match &self.kind {
            ErrorKind::UnexpectedCharacter(c) => {
                push_text(&mut out, "unexpected character '");
                push_char(&mut out, *c);
                push_text(&mut out, "'");
            },
            ErrorKind::InvalidNumber => {
                push_text(&mut out, "invalid number");
            },
            ErrorKind::UnknownCommand(cmd) => {
                push_text(&mut out, "unknown command \\");
                push_text(&mut out, cmd.as_str());
            },
            ErrorKind::UnexpectedToken { expected, found } => {
                push_text(&mut out, "expected ");
                push_text(&mut out, expected.as_str());
                push_text(&mut out, ", but found ");
                push_text(&mut out, found.as_str());
            },
        }
        push_text(&mut out, " at position ");
        push_decimal(&mut out, self.span.start);
        assert(out@ =~= error_summary(*self));
        out
    }
}

} // verus!
