//! The tokens of the declaration language.
use vstd::prelude::*;
use vstd::string::StringExecFns;

verus! {

/// A token produced by the lexer.
#[derive(Clone, Copy, Debug, PartialEq, Eq, Structural)]
pub enum Token {
    Id,
    Number,
    Var,
    Array,
    Of,
    Comma,
    Dot,
    DoubleDot,
    Semicolon,
    Colon,
    OpenSBracket,
    CloseSBracket,
    Epsilon,
    Eof,
}

/// How a token is displayed.
pub open spec fn token_text(t: Token) -> Seq<char> {
    match t {
        Token::Id | Token::Number => "<id>"@,
        Token::Var => "var"@,
        Token::Array => "array"@,
        Token::Of => "of"@,
        Token::Comma => ","@,
        Token::Dot => "."@,
        Token::DoubleDot => ".."@,
        Token::Semicolon => ";"@,
        Token::Colon => ":"@,
        Token::OpenSBracket => "["@,
        Token::CloseSBracket => "]"@,
        Token::Epsilon => "\u{3b5}"@,
        Token::Eof => "EOF"@,
    }
}

/// The name of a token's variant, as its debug form shows it.
pub open spec fn token_name(t: Token) -> Seq<char> {
    match t {
        Token::Id => "Id"@,
        Token::Number => "Number"@,
        Token::Var => "Var"@,
        Token::Array => "Array"@,
        Token::Of => "Of"@,
        Token::Comma => "Comma"@,
        Token::Dot => "Dot"@,
        Token::DoubleDot => "DoubleDot"@,
        Token::Semicolon => "Semicolon"@,
        Token::Colon => "Colon"@,
        Token::OpenSBracket => "OpenSBracket"@,
        Token::CloseSBracket => "CloseSBracket"@,
        Token::Epsilon => "Epsilon"@,
        Token::Eof => "Eof"@,
    }
}

/// The names of a list of tokens, separated by `", "`.
pub open spec fn token_names_joined(ts: Seq<Token>) -> Seq<char>
    decreases ts.len(),
{
    if ts.len() == 0 {
        Seq::empty()
    } else if ts.len() == 1 {
        token_name(ts[0])
    } else {
        token_names_joined(ts.drop_last()) + ", "@ + token_name(ts.last())
    }
}

/// The debug form of a list of tokens: `[Comma, Colon]`.
pub open spec fn token_list_text(ts: Seq<Token>) -> Seq<char> {
    "["@ + token_names_joined(ts) + "]"@
}

impl Token {
    /// The displayed form of the token.
    pub fn to_string(&self) -> (s: String)
        ensures
            s@ == token_text(*self),
    {
        match self {
            Token::Id | Token::Number => "<id>".to_owned(),
            Token::Var => "var".to_owned(),
            Token::Array => "array".to_owned(),
            Token::Of => "of".to_owned(),
            Token::Comma => ",".to_owned(),
            Token::Dot => ".".to_owned(),
            Token::DoubleDot => "..".to_owned(),
            Token::Semicolon => ";".to_owned(),
            Token::Colon => ":".to_owned(),
            Token::OpenSBracket => "[".to_owned(),
            Token::CloseSBracket => "]".to_owned(),
            Token::Epsilon => "\u{3b5}".to_owned(),
            Token::Eof => "EOF".to_owned(),
        }
    }

    /// The name of the token's variant.
    pub(crate) fn name(&self) -> (s: &'static str)
        ensures
            s@ == token_name(*self),
    {
        match self {
            Token::Id => "Id",
            Token::Number => "Number",
            Token::Var => "Var",
            Token::Array => "Array",
            Token::Of => "Of",
            Token::Comma => "Comma",
            Token::Dot => "Dot",
            Token::DoubleDot => "DoubleDot",
            Token::Semicolon => "Semicolon",
            Token::Colon => "Colon",
            Token::OpenSBracket => "OpenSBracket",
            Token::CloseSBracket => "CloseSBracket",
            Token::Epsilon => "Epsilon",
            Token::Eof => "Eof",
        }
    }
}

/// Appends the debug form of a list of tokens to `out`.
pub(crate) fn push_token_list(out: &mut String, ts: &[Token])
    ensures
        final(out)@ == old(out)@ + token_list_text(ts@),
{
    out.append("[");
    let mut i: usize = 0;
    while i < ts.len()
        invariant
            i <= ts@.len(),
            out@ == old(out)@ + "["@ + token_names_joined(ts@.take(i as int)),
        decreases ts@.len() - i,
    {
        if i > 0 {
            out.append(", ");
        }
        out.append(ts[i].name());
        let ghost pre = ts@.take(i as int);
        assert(ts@.take(i as int + 1).drop_last() =~= pre);
        i = i + 1;
    }
    assert(ts@.take(ts@.len() as int) =~= ts@);
    out.append("]");
}

} // verus!
