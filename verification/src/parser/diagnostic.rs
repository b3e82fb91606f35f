//! Diagnostics: what went wrong, and where.
use crate::parser::token::{LexError, Punct};
use vstd::prelude::*;

verus! {

/// How grave a diagnostic is. Everything that the parser reports is an
/// `Error`; `Warning` is there for those who add findings of their own to
/// the list.
#[derive(Clone, Copy, Debug, PartialEq, Eq, Structural)]
pub enum Severity {
    Error,
    Warning,
}

/// What a diagnostic reports.
#[derive(Clone, Copy, Debug, PartialEq, Eq, Structural)]
pub enum DiagnosticKind {
    /// A token that the scanner could not read.
    Lexical(LexError),
    /// An operator without an operand, or a place where an expression had to
    /// stand and none does.
    MissingOperand,
    /// A delimiter or separator that had to stand here and does not.
    Expected(Punct),
    /// `$`, `@`, `::` or `:::` without a name behind it.
    ExpectedName,
    /// A statement that does not end where its expression ends, or whose
    /// expression is broken.
    MalformedStatement,
    /// Two operators of a tier that does not associate, side by side.
    NonAssociative,
    /// A formal parameter that is neither a name nor a name with a default.
    InvalidParameter,
    /// Nesting deeper than the parser follows.
    TooDeep,
    /// A run of operators whose nesting could not be resolved, or that is
    /// longer than the resolver takes.
    Unresolved,
}

/// One diagnostic: the bytes `[start, end)` it speaks of, how grave it is,
/// and what it reports.
#[derive(Clone, Copy, Debug, PartialEq, Eq, Structural)]
pub struct Diagnostic {
    pub start: usize,
    pub end: usize,
    pub severity: Severity,
    pub kind: DiagnosticKind,
}

/// The words that go with a kind of diagnostic.
pub open spec fn message_of(kind: DiagnosticKind) -> Seq<char> {
    match kind {
        DiagnosticKind::Lexical(LexError::UnterminatedString) => "unterminated string"@,
        DiagnosticKind::Lexical(LexError::InvalidEscape) => "unrecognized escape in string"@,
        DiagnosticKind::Lexical(LexError::MalformedRawString) => "malformed raw string"@,
        DiagnosticKind::Lexical(LexError::UnexpectedCharacter) => "unexpected character"@,
        DiagnosticKind::MissingOperand => "expected an expression"@,
        DiagnosticKind::Expected(Punct::LParen) => "expected `(`"@,
        DiagnosticKind::Expected(Punct::RParen) => "expected `)`"@,
        DiagnosticKind::Expected(Punct::LBrace) => "expected `{`"@,
        DiagnosticKind::Expected(Punct::RBrace) => "expected `}`"@,
        DiagnosticKind::Expected(Punct::LBracket) => "expected `[`"@,
        DiagnosticKind::Expected(Punct::RBracket) => "expected `]`"@,
        DiagnosticKind::Expected(Punct::LDoubleBracket) => "expected `[[`"@,
        DiagnosticKind::Expected(Punct::Comma) => "expected `,`"@,
        DiagnosticKind::Expected(Punct::Semicolon) => "expected `;`"@,
        DiagnosticKind::ExpectedName => "expected a name"@,
        DiagnosticKind::MalformedStatement => "malformed statement"@,
        DiagnosticKind::NonAssociative => "operator does not associate"@,
        DiagnosticKind::InvalidParameter => "invalid formal parameter"@,
        DiagnosticKind::TooDeep => "nesting too deep"@,
        DiagnosticKind::Unresolved => "operators could not be resolved"@,
    }
}

impl Diagnostic {
    /// The diagnostic's message for a reader.
    pub fn message(&self) -> (m: String)
        ensures
            m@ == message_of(self.kind),
    {
        match self.kind {
            DiagnosticKind::Lexical(LexError::UnterminatedString) => "unterminated string".to_owned(),
            DiagnosticKind::Lexical(LexError::InvalidEscape) => "unrecognized escape in string".to_owned(),
            DiagnosticKind::Lexical(LexError::MalformedRawString) => "malformed raw string".to_owned(),
            DiagnosticKind::Lexical(LexError::UnexpectedCharacter) => "unexpected character".to_owned(),
            DiagnosticKind::MissingOperand => "expected an expression".to_owned(),
            DiagnosticKind::Expected(Punct::LParen) => "expected `(`".to_owned(),
            DiagnosticKind::Expected(Punct::RParen) => "expected `)`".to_owned(),
            DiagnosticKind::Expected(Punct::LBrace) => "expected `{`".to_owned(),
            DiagnosticKind::Expected(Punct::RBrace) => "expected `}`".to_owned(),
            DiagnosticKind::Expected(Punct::LBracket) => "expected `[`".to_owned(),
            DiagnosticKind::Expected(Punct::RBracket) => "expected `]`".to_owned(),
            DiagnosticKind::Expected(Punct::LDoubleBracket) => "expected `[[`".to_owned(),
            DiagnosticKind::Expected(Punct::Comma) => "expected `,`".to_owned(),
            DiagnosticKind::Expected(Punct::Semicolon) => "expected `;`".to_owned(),
            DiagnosticKind::ExpectedName => "expected a name".to_owned(),
            DiagnosticKind::MalformedStatement => "malformed statement".to_owned(),
            DiagnosticKind::NonAssociative => "operator does not associate".to_owned(),
            DiagnosticKind::InvalidParameter => "invalid formal parameter".to_owned(),
            DiagnosticKind::TooDeep => "nesting too deep".to_owned(),
            DiagnosticKind::Unresolved => "operators could not be resolved".to_owned(),
        }
    }
}

} // verus!
