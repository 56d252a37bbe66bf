//! Errors reported while reading, lexing and parsing.
use vstd::prelude::*;
use vstd::string::StringExecFns;

use crate::lexer::Lexer;
use crate::text::{decimal, push_char, push_decimal};
use crate::token::{Token, token_text, token_list_text, push_token_list};

verus! {

/// Which stage of the pipeline failed.
#[derive(Clone, Copy, Debug, PartialEq, Eq, Structural)]
pub enum ParseErrorKind {
    InputError,
    LexerError,
    ParserError,
}

/// The name of an error kind.
pub open spec fn kind_text(k: ParseErrorKind) -> Seq<char> {
    match k {
        ParseErrorKind::InputError => "InputError"@,
        ParseErrorKind::LexerError => "LexerError"@,
        ParseErrorKind::ParserError => "ParserError"@,
    }
}

impl ParseErrorKind {
    /// The displayed form of the kind: its name.
    pub fn to_string(&self) -> (s: String)
        ensures
            s@ == kind_text(*self),
    {
        match self {
            ParseErrorKind::InputError => "InputError".to_owned(),
            ParseErrorKind::LexerError => "LexerError".to_owned(),
            ParseErrorKind::ParserError => "ParserError".to_owned(),
        }
    }
}

/// An error with its kind and a message.
#[derive(Debug, Clone)]
pub struct ParseError {
    pub kind: ParseErrorKind,
    pub msg: String,
}

/// The mathematical value of a [`ParseError`].
pub struct ErrorView {
    pub kind: ParseErrorKind,
    pub msg: Seq<char>,
}

impl View for ParseError {
    type V = ErrorView;

    open spec fn view(&self) -> ErrorView {
        ErrorView { kind: self.kind, msg: self.msg@ }
    }
}

/// The error for a failed read of the input; `detail` describes the failure.
pub open spec fn failed_read_error(detail: Seq<char>) -> ErrorView {
    ErrorView { kind: ParseErrorKind::InputError, msg: "Read operation failed: "@ + detail }
}

/// The error for a character that starts no token, met at position `pos`.
pub open spec fn unknown_terminal_error(c: char, pos: nat) -> ErrorView {
    ErrorView {
        kind: ParseErrorKind::LexerError,
        msg: "Unknown terminal "@ + seq![c] + " at position "@ + decimal(pos) + " of input"@,
    }
}

/// The error for the token `found` at position `pos` where one of `expected` was needed.
pub open spec fn unexpected_token_error(found: Token, pos: nat, expected: Seq<Token>) -> ErrorView {
    ErrorView {
        kind: ParseErrorKind::ParserError,
        msg: "Unexpected token "@ + token_text(found) + " at position "@ + decimal(pos)
            + ". Expected one of: "@ + token_list_text(expected),
    }
}

/// The displayed form of an error: its kind, a colon and its message.
pub open spec fn error_text(e: ErrorView) -> Seq<char> {
    kind_text(e.kind) + ": "@ + e.msg
}

impl ParseError {
    /// The error for a failed read; `detail` is the reader's description of the failure.
    pub fn failed_read(detail: &str) -> (e: ParseError)
        ensures
            e@ == failed_read_error(detail@),
    {
        let mut msg = "Read operation failed: ".to_owned();
        msg.append(detail);
        ParseError { kind: ParseErrorKind::InputError, msg }
    }

    /// The error for the character `c`, which starts no token, at position `pos`.
    pub fn unknown_terminal(c: char, pos: u32) -> (e: ParseError)
        ensures
            e@ == unknown_terminal_error(c, pos as nat),
    {
        let mut msg = "Unknown terminal ".to_owned();
        push_char(&mut msg, c);
        assert(msg@ =~= "Unknown terminal "@ + seq![c]);
        msg.append(" at position ");
        push_decimal(&mut msg, pos as u64);
        msg.append(" of input");
        ParseError { kind: ParseErrorKind::LexerError, msg }
    }

    /// The error for the lexer's current token, where one of `expected` was needed.
    pub fn unexpected_token(lexer: &Lexer, expected: &[Token]) -> (e: ParseError)
        ensures
            e@ == unexpected_token_error(lexer.token, lexer.position as nat, expected@),
    {
        let mut msg = "Unexpected token ".to_owned();
        let found = lexer.token.to_string();
        msg.append(found.as_str());
        msg.append(" at position ");
        push_decimal(&mut msg, lexer.position as u64);
        msg.append(". Expected one of: ");
        push_token_list(&mut msg, expected);
        ParseError { kind: ParseErrorKind::ParserError, msg }
    }

    /// The displayed form of the error: its kind, a colon and its message.
    pub fn to_string(&self) -> (s: String)
        ensures
            s@ == error_text(self@),
    {
        let mut s = self.kind.to_string();
        s.append(": ");
        s.append(self.msg.as_str());
        s
    }
}

} // verus!
