//! Errors and warnings: what went wrong, where, and what to do about it.
use vstd::prelude::*;

use crate::ast::Span;
use crate::text::{decimal, decimal_chars, push_chars, push_str, to_owned};

verus! {

/// Which stage refused the program.
#[derive(Debug, Clone, Copy, PartialEq, Eq, Structural)]
pub enum ErrorKind {
    /// Lexing or parsing.
    Parse,
    /// Lowering: names, arities, safety, stratification.
    Semantic,
    /// Module resolution and data imports.
    Source,
}

/// A stable code for the source errors a caller may branch on.
#[derive(Debug, Clone, Copy, PartialEq, Eq, Structural)]
pub enum ErrorCode {
    UnsupportedFormat,
    FileNotFound,
    SourceSchemaMismatch,
    UnconvertibleCell,
    UnsupportedColumn,
    UnreadableSource,
}

/// One error, with the place it points at when there is one.
#[derive(Debug, Clone, PartialEq, Eq)]
pub struct Error {
    pub kind: ErrorKind,
    pub code: Option<ErrorCode>,
    pub message: String,
    pub span: Option<Span>,
    pub suggestion: Option<String>,
}

/// The label an error is rendered with.
pub open spec fn kind_label(kind: ErrorKind) -> Seq<char> {
    match kind {
        ErrorKind::Parse => "parse error"@,
        ErrorKind::Semantic => "semantic error"@,
        ErrorKind::Source => "source error"@,
    }
}

impl Error {
    /// A lexing or parsing error.
    pub fn parse(message: String) -> (r: Error)
        ensures
            r.kind == ErrorKind::Parse,
            r.code is None,
            r.message@ == message@,
            r.span is None,
            r.suggestion is None,
    {
        Error { kind: ErrorKind::Parse, code: None, message, span: None, suggestion: None }
    }

    /// A lowering error.
    pub fn semantic(message: String) -> (r: Error)
        ensures
            r.kind == ErrorKind::Semantic,
            r.code is None,
            r.message@ == message@,
            r.span is None,
            r.suggestion is None,
    {
        Error { kind: ErrorKind::Semantic, code: None, message, span: None, suggestion: None }
    }

    /// A module-resolution or import error.
    pub fn source(message: String) -> (r: Error)
        ensures
            r.kind == ErrorKind::Source,
            r.code is None,
            r.message@ == message@,
            r.span is None,
            r.suggestion is None,
    {
        Error { kind: ErrorKind::Source, code: None, message, span: None, suggestion: None }
    }

    /// An import error with a stable code.
    pub fn new(code: ErrorCode, message: String) -> (r: Error)
        ensures
            r.kind == ErrorKind::Source,
            r.code == Some(code),
            r.message@ == message@,
            r.span is None,
            r.suggestion is None,
    {
        Error { kind: ErrorKind::Source, code: Some(code), message, span: None, suggestion: None }
    }

    /// The error pointing at `span`, unless it already points somewhere.
    pub fn or_span(self, span: Span) -> (r: Error)
        ensures
            r.kind == self.kind,
            r.code == self.code,
            r.message == self.message,
            r.suggestion == self.suggestion,
            r.span == (match self.span {
                Some(s) => Some(s),
                None => Some(span),
            }),
    {
        let mut error = self;
        if error.span.is_none() {
            error.span = Some(span);
        }
        error
    }

    /// The error as one line: its stage, then its message.
    pub fn render(&self) -> (r: String)
        ensures
            r@ == kind_label(self.kind) + ": "@ + self.message@,
    {
        let label = match self.kind {
            ErrorKind::Parse => "parse error: ",
            ErrorKind::Semantic => "semantic error: ",
            ErrorKind::Source => "source error: ",
        };
        proof {
            reveal_strlit("parse error: ");
            reveal_strlit("semantic error: ");
            reveal_strlit("source error: ");
            reveal_strlit("parse error");
            reveal_strlit("semantic error");
            reveal_strlit("source error");
            reveal_strlit(": ");
        }
        let mut out = to_owned(label);
        let message = crate::text::chars_of(self.message.as_str());
        push_chars(&mut out, message.as_slice());
        assert(out@ =~= kind_label(self.kind) + ": "@ + self.message@);
        out
    }
}

/// Something valid but almost always a mistake.
#[derive(Debug, Clone, PartialEq, Eq)]
pub enum Warning {
    /// A predicate referenced in a body that nothing defines: no fact, no rule
    /// head, no import. It is the empty relation, which is rarely what was meant.
    UndefinedPredicate { name: String, arity: u32, suggestion: Option<String> },
}

/// How a warning reads.
pub open spec fn spec_warning_text(w: Warning) -> Seq<char> {
    match w {
        Warning::UndefinedPredicate { name, arity, suggestion } => "warning: predicate `"@ + name@
            + "/"@ + decimal(arity as nat) + "` is used but never defined (no fact, rule or import)"@
            + match suggestion {
            Some(s) => "; did you mean `"@ + s@ + "`?"@,
            None => Seq::empty(),
        },
    }
}

impl Warning {
    /// The warning as one line, with the nearest defined name when there is one.
    pub fn render(&self) -> (r: String)
        ensures
            r@ == spec_warning_text(*self),
    {
        match self {
            Warning::UndefinedPredicate { name, arity, suggestion } => {
                let mut out = to_owned("warning: predicate `");
                push_str(&mut out, name.as_str());
                push_str(&mut out, "/");
                let digits = decimal_chars(*arity as u64);
                push_chars(&mut out, digits.as_slice());
                push_str(&mut out, "` is used but never defined (no fact, rule or import)");
                let ghost base = out@;
                if let Some(s) = suggestion {
                    push_str(&mut out, "; did you mean `");
                    push_str(&mut out, s.as_str());
                    push_str(&mut out, "`?");
                    assert(out@ =~= base + ("; did you mean `"@ + s@ + "`?"@));
                } else {
                    assert(out@ =~= base + Seq::<char>::empty());
                }
                assert(out@ =~= spec_warning_text(*self));
                out
            },
        }
    }
}

} // verus!
