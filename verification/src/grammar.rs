//! The grammar of array declarations and what parsing a token stream yields.
//!
//! ```text
//! S   -> var X : array [ D ] of T ;
//! X   -> id X''          X'' -> X' | eps        X' -> , X Y        Y -> X' | eps
//! D   -> R D''           D'' -> D' | eps        D' -> , D P        P -> D' | eps
//! R   -> N .. N | id     N   -> number          T  -> id
//! ```
//!
//! The parser is predictive: the current token picks the production of each
//! nonterminal, as [`production`] states; where it picks none, parsing stops
//! with an error naming the tokens that were acceptable there.
use vstd::prelude::*;

use crate::lexer::{LexState, lex_next, initial_state, lemma_lex_next_progress, lemma_eof_is_stable, lemma_lex_error_kind, lemma_lex_word_text, remaining};
use crate::node::SNode;
use crate::parse_error::{ErrorView, ParseErrorKind, unexpected_token_error};
use crate::token::{Token, token_text};

verus! {

/// The nonterminals of the grammar.
#[derive(Clone, Copy, Debug)]
pub enum NonTerminal {
    S,
    T,
    D,
    DPrime,
    DDoublePrime,
    P,
    R,
    N,
    X,
    XPrime,
    XDoublePrime,
    Y,
}

/// A symbol on the right-hand side of a production.
#[derive(Clone, Copy, Debug)]
pub enum Symbol {
    /// A token, shown in the tree by its own text.
    Term(Token),
    /// A token (the first), shown in the tree as the second.
    TermShownAs(Token, Token),
    /// A leaf showing a token that matches no input.
    Leaf(Token),
    Nonterm(NonTerminal),
}

/// The production of `nt` chosen when the current token is `lookahead`: the
/// label of the node it builds and its symbols; or, where none applies, the
/// tokens that were expected.
#[verifier::opaque]
pub open spec fn production(nt: NonTerminal, lookahead: Token) -> Result<(Seq<char>, Seq<Symbol>), Seq<Token>> {
    match nt {
        NonTerminal::S => if lookahead == Token::Var {
            Ok(("S"@, seq![
                Symbol::Term(Token::Var), Symbol::Nonterm(NonTerminal::X), Symbol::Term(Token::Colon),
                Symbol::Term(Token::Array), Symbol::Term(Token::OpenSBracket), Symbol::Nonterm(NonTerminal::D),
                Symbol::Term(Token::CloseSBracket), Symbol::Term(Token::Of), Symbol::Nonterm(NonTerminal::T),
                Symbol::Term(Token::Semicolon),
            ]))
        } else {
            Err(seq![Token::Var])
        },
        NonTerminal::T => Ok(("T"@, seq![Symbol::Term(Token::Id)])),
        NonTerminal::D => Ok(("D"@, seq![Symbol::Nonterm(NonTerminal::R), Symbol::Nonterm(NonTerminal::DDoublePrime)])),
        NonTerminal::DPrime => Ok(("D'"@, seq![
            Symbol::Term(Token::Comma), Symbol::Nonterm(NonTerminal::D), Symbol::Nonterm(NonTerminal::P),
        ])),
        NonTerminal::DDoublePrime => if lookahead == Token::Comma {
            Ok(("D''"@, seq![Symbol::Nonterm(NonTerminal::DPrime)]))
        } else if lookahead == Token::CloseSBracket {
            Ok(("D''"@, seq![Symbol::Term(Token::Epsilon)]))
        } else {
            Err(seq![Token::Comma, Token::CloseSBracket])
        },
        NonTerminal::P => if lookahead == Token::Comma {
            Ok(("P"@, seq![Symbol::Nonterm(NonTerminal::DPrime)]))
        } else if lookahead == Token::CloseSBracket {
            Ok(("P"@, seq![Symbol::Term(Token::Epsilon)]))
        } else {
            Err(seq![Token::Comma, Token::CloseSBracket])
        },
        NonTerminal::R => if lookahead == Token::Number {
            Ok(("R"@, seq![
                Symbol::Nonterm(NonTerminal::N), Symbol::TermShownAs(Token::DoubleDot, Token::Dot),
                Symbol::Leaf(Token::Dot), Symbol::Nonterm(NonTerminal::N),
            ]))
        } else if lookahead == Token::Id {
            Ok(("T"@, seq![Symbol::Term(Token::Id)]))
        } else {
            Err(seq![Token::Number, Token::Id])
        },
        NonTerminal::N => Ok(("N"@, seq![Symbol::Term(Token::Number)])),
        NonTerminal::X => Ok(("X"@, seq![Symbol::Term(Token::Id), Symbol::Nonterm(NonTerminal::XDoublePrime)])),
        NonTerminal::XPrime => Ok(("X'"@, seq![
            Symbol::Term(Token::Comma), Symbol::Nonterm(NonTerminal::X), Symbol::Nonterm(NonTerminal::Y),
        ])),
        NonTerminal::XDoublePrime => if lookahead == Token::Comma {
            Ok(("X''"@, seq![Symbol::Nonterm(NonTerminal::XPrime)]))
        } else if lookahead == Token::Colon {
            Ok(("X''"@, seq![Symbol::Term(Token::Epsilon)]))
        } else {
            Err(seq![Token::Comma, Token::Colon])
        },
        NonTerminal::Y => if lookahead == Token::Comma {
            Ok(("Y"@, seq![Symbol::Nonterm(NonTerminal::XPrime)]))
        } else if lookahead == Token::Colon {
            Ok(("Y"@, seq![Symbol::Term(Token::Epsilon)]))
        } else {
            Err(seq![Token::Comma, Token::Colon])
        },
    }
}

/// What one call of the lexer yields: its new state; or the state it leaves
/// behind when it fails, with the error.
pub enum LexItem {
    Tok(LexState),
    Fail(LexState, ErrorView),
}

/// The results of calling the lexer again and again from state `st`, up to and
/// including the first end of file or the first error.
pub open spec fn tokens_from(input: Seq<u8>, st: LexState) -> Seq<LexItem>
    decreases remaining(input, st),
{
    let (next, err) = lex_next(input, st);
    match err {
        Some(e) => seq![LexItem::Fail(next, e)],
        None => if next.token == Token::Eof || !(st.idx <= input.len()) {
            seq![LexItem::Tok(next)]
        } else {
            proof {
                lemma_lex_next_progress(input, st);
            }
            seq![LexItem::Tok(next)] + tokens_from(input, next)
        },
    }
}


/// The item `next` is what the lexer yields when called in state `st`.
pub open spec fn yields(input: Seq<u8>, st: LexState, next: LexItem) -> bool {
    match next {
        LexItem::Tok(t) => lex_next(input, st) == (t, None::<ErrorView>),
        LexItem::Fail(s, e) => lex_next(input, st) == (s, Some(e)),
    }
}

/// `items` are successive results of the lexer on `input`: each item but the
/// last is a token other than the end of file, and the lexer yields the next
/// item from it; the last is an error, or the end of file, from which the
/// lexer yields the same state again.
pub open spec fn linked(input: Seq<u8>, items: Seq<LexItem>) -> bool {
    &&& items.len() > 0
    &&& forall|k: int| 0 <= k < items.len() - 1 ==> (#[trigger] items[k] matches LexItem::Tok(st)
        && st.token != Token::Eof && yields(input, st, items[k + 1]))
    &&& items.last() matches LexItem::Tok(st) ==> st.token == Token::Eof && lex_next(input, st) == (st, None::<ErrorView>)
    &&& forall|k: int| 0 <= k < items.len() ==> (#[trigger] items[k] matches LexItem::Tok(st) ==> st.idx <= input.len()
        && (st.token == Token::Id || st.token == Token::Number ==> st.last_id.len() > 0))
}

/// The results of the lexer from a state within the input are linked.
pub proof fn lemma_tokens_linked(input: Seq<u8>, st: LexState)
    requires
        st.idx <= input.len(),
    ensures
        linked(input, tokens_from(input, st)),
        yields(input, st, tokens_from(input, st)[0]),
    decreases remaining(input, st),
{
    let (next, err) = lex_next(input, st);
    lemma_lex_next_progress(input, st);
    lemma_lex_word_text(input, st);
    let items = tokens_from(input, st);
    match err {
        Some(e) => {},
        None => {
            if next.token == Token::Eof {
                lemma_eof_is_stable(input, st);
            } else {
                lemma_tokens_linked(input, next);
                let rest = tokens_from(input, next);
                assert(items == seq![LexItem::Tok(next)] + rest);
                assert forall|k: int| 0 <= k < items.len() - 1 implies (#[trigger] items[k] matches LexItem::Tok(s)
                    && s.token != Token::Eof && yields(input, s, items[k + 1])) by {
                    if k > 0 {
                        assert(items[k] == rest[k - 1]);
                        assert(items[k + 1] == rest[k]);
                    }
                }
                assert forall|k: int| 0 <= k < items.len() implies (#[trigger] items[k] matches LexItem::Tok(s)
                    ==> s.idx <= input.len() && (s.token == Token::Id || s.token == Token::Number ==> s.last_id.len() > 0)) by {
                    if k > 0 {
                        assert(items[k] == rest[k - 1]);
                    }
                }
                assert(items.last() == rest.last());
            }
        },
    }
}


/// The lexer state of item `i`, when it is a token.
pub open spec fn state_at(items: Seq<LexItem>, i: int) -> LexState {
    match items[i] {
        LexItem::Tok(st) => st,
        LexItem::Fail(..) => initial_state(),
    }
}

/// The lexer state at item `k`: that of the token there, or the state a
/// failing step of the lexer left behind.
pub open spec fn stop_state(items: Seq<LexItem>, k: int) -> LexState {
    match items[k] {
        LexItem::Tok(st) => st,
        LexItem::Fail(st, _) => st,
    }
}

/// Moving past item `i`: to the next item, or the error it is, with its index;
/// the end of file stays where it is.
pub open spec fn advance(items: Seq<LexItem>, i: int) -> Result<int, (ErrorView, int)> {
    if i + 1 < items.len() {
        match items[i + 1] {
            LexItem::Tok(_) => Ok(i + 1),
            LexItem::Fail(_, e) => Err((e, i + 1)),
        }
    } else {
        Ok(i)
    }
}

/// A leaf of the parse tree.
pub open spec fn leaf(name: Seq<char>) -> SNode {
    SNode { name, children: Seq::empty(), is_term: true }
}

/// The error for the current token of item `i` where one of `expected` was needed.
pub open spec fn unexpected_at(items: Seq<LexItem>, i: int, expected: Seq<Token>) -> ErrorView {
    unexpected_token_error(state_at(items, i).token, state_at(items, i).position, expected)
}

/// Matching the terminal `tok` at item `i`: a leaf and the index of the item
/// after it. The leaf of an identifier or a number carries its text, any other
/// leaf the displayed form of `shown`. The empty string `Epsilon` matches
/// anything and consumes nothing. An error comes with the index of the item
/// where it arose.
pub open spec fn parse_terminal(items: Seq<LexItem>, i: int, tok: Token, shown: Token) -> Result<(SNode, int), (ErrorView, int)> {
    let st = state_at(items, i);
    if st.token != tok && tok != Token::Epsilon {
        Err((unexpected_at(items, i, seq![tok]), i))
    } else {
        let name = if (tok == Token::Id || tok == Token::Number) && st.last_id.len() > 0 {
            st.last_id
        } else {
            token_text(shown)
        };
        if tok == Token::Epsilon {
            Ok((leaf(name), i))
        } else {
            match advance(items, i) {
                Ok(j) => Ok((leaf(name), j)),
                Err(e) => Err(e),
            }
        }
    }
}

/// A ranking of nonterminals under which every production starts with a
/// lower-ranked symbol.
pub open spec fn rank_nt(nt: NonTerminal) -> int {
    match nt {
        NonTerminal::D => 8,
        NonTerminal::DDoublePrime | NonTerminal::P | NonTerminal::R | NonTerminal::XDoublePrime
        | NonTerminal::Y => 5,
        _ => 2,
    }
}

pub open spec fn rank_symbol(sym: Symbol) -> int {
    match sym {
        Symbol::Nonterm(nt) => rank_nt(nt) + 1,
        _ => 0,
    }
}

/// Ranks of symbol lists are never negative.
pub proof fn lemma_rank_symbols_nonneg(syms: Seq<Symbol>)
    ensures
        rank_symbols(syms) >= 0,
    decreases syms.len(),
{
    if syms.len() > 0 {
        lemma_rank_symbols_nonneg(syms.drop_first());
    }
}

/// A ranking of symbol lists: leading leaves count one each, then the first
/// other symbol.
pub open spec fn rank_symbols(syms: Seq<Symbol>) -> int
    decreases syms.len(),
{
    if syms.len() == 0 {
        0
    } else if syms[0] is Leaf {
        rank_symbols(syms.drop_first()) + 1
    } else {
        rank_symbol(syms[0]) + 1
    }
}

/// Parsing the symbol `sym` at item `i`.
pub open spec fn parse_symbol(items: Seq<LexItem>, i: int, sym: Symbol) -> Result<(SNode, int), (ErrorView, int)>
    decreases items.len() - i, rank_symbol(sym),
{
    match sym {
        Symbol::Term(t) => parse_terminal(items, i, t, t),
        Symbol::TermShownAs(t, shown) => parse_terminal(items, i, t, shown),
        Symbol::Leaf(t) => Ok((leaf(token_text(t)), i)),
        Symbol::Nonterm(nt) => parse_nt(items, i, nt),
    }
}

/// Parsing the nonterminal `nt` at item `i`: the production chosen by the
/// current token, or an error naming the tokens expected there.
pub open spec fn parse_nt(items: Seq<LexItem>, i: int, nt: NonTerminal) -> Result<(SNode, int), (ErrorView, int)>
    decreases items.len() - i, rank_nt(nt),
{
    match production(nt, state_at(items, i).token) {
        Err(expected) => Err((unexpected_at(items, i, expected), i)),
        Ok((label, syms)) => match {
            proof {
                lemma_production_shape(nt, state_at(items, i).token);
            }
            parse_seq(items, i, syms)
        } {
            Ok((kids, j)) => Ok((SNode { name: label, children: kids, is_term: false }, j)),
            Err(e) => Err(e),
        },
    }
}

/// Parsing the symbols `syms` one after the other from item `i`: the first
/// error with the index of the item where it arose, or the subtrees and the
/// index of the item after them.
///
/// Every symbol of the grammar followed by another is a leaf or consumes at
/// least one token (see [`lemma_seq_progress`]), so the test on `j` always
/// holds; it states the measure by which the recursion ends.
pub open spec fn parse_seq(items: Seq<LexItem>, i: int, syms: Seq<Symbol>) -> Result<(Seq<SNode>, int), (ErrorView, int)>
    decreases items.len() - i, rank_symbols(syms),
{
    if syms.len() == 0 {
        Ok((Seq::empty(), i))
    } else {
        match {
            proof {
                lemma_rank_symbols_nonneg(syms.drop_first());
            }
            parse_symbol(items, i, syms[0])
        } {
            Err(e) => Err(e),
            Ok((n, j)) => if syms.len() == 1 {
                Ok((seq![n], j))
            } else if (syms[0] is Leaf && j == i) || i < j <= items.len() {
                match parse_seq(items, j, syms.drop_first()) {
                    Ok((ns, k)) => Ok((seq![n] + ns, k)),
                    Err(e) => Err(e),
                }
            } else {
                Err((unexpected_at(items, j, Seq::empty()), j))
            },
        }
    }
}

/// What the parser makes of the lexer's results `items`: the parse tree of a
/// declaration, or the first error.
pub open spec fn parse_items(items: Seq<LexItem>) -> Result<SNode, ErrorView> {
    match items[0] {
        LexItem::Fail(_, e) => Err(e),
        LexItem::Tok(_) => match parse_nt(items, 0, NonTerminal::S) {
            Ok((tree, _)) => Ok(tree),
            Err((e, _)) => Err(e),
        },
    }
}

/// The index of the item of `items` at which the parser stops: the item after
/// the declaration, or the one where the error arose.
pub open spec fn parse_stop(items: Seq<LexItem>) -> int {
    match items[0] {
        LexItem::Fail(..) => 0,
        LexItem::Tok(_) => match parse_nt(items, 0, NonTerminal::S) {
            Ok((_, j)) => j,
            Err((_, k)) => k,
        },
    }
}

/// What the parser makes of `input`, lexed from state `st`.
pub open spec fn parse_from(input: Seq<u8>, st: LexState) -> Result<SNode, ErrorView> {
    parse_items(tokens_from(input, st))
}

/// The state in which the parser leaves the lexer after parsing `input` from
/// state `st`: at the token after the declaration, or where the error arose.
pub open spec fn parse_end(input: Seq<u8>, st: LexState) -> LexState {
    stop_state(tokens_from(input, st), parse_stop(tokens_from(input, st)))
}

/// What the parser makes of `input`.
pub open spec fn parse_bytes(input: Seq<u8>) -> Result<SNode, ErrorView> {
    parse_from(input, initial_state())
}


/// The nonterminals that never derive the empty string.
pub open spec fn consumes(nt: NonTerminal) -> bool {
    match nt {
        NonTerminal::DDoublePrime | NonTerminal::P | NonTerminal::XDoublePrime | NonTerminal::Y => false,
        _ => true,
    }
}

/// The symbols that never derive the empty string.
pub open spec fn symbol_consumes(sym: Symbol) -> bool {
    match sym {
        Symbol::Term(t) => t != Token::Epsilon && t != Token::Eof,
        Symbol::TermShownAs(t, _) => t != Token::Epsilon && t != Token::Eof,
        Symbol::Leaf(_) => false,
        Symbol::Nonterm(nt) => consumes(nt),
    }
}

/// Every production has a symbol; a production of a nonterminal that never
/// derives the empty string starts with a symbol that never does.
pub proof fn lemma_production_shape(nt: NonTerminal, lookahead: Token)
    ensures
        production(nt, lookahead) matches Ok((_, syms)) ==> {
            &&& syms.len() >= 1
            &&& rank_symbols(syms) < rank_nt(nt)
            &&& (consumes(nt) ==> symbol_consumes(syms[0]))
            &&& !(syms[0] is Leaf)
            &&& forall|k: int| 0 <= k < syms.len() - 1 ==> symbol_consumes(#[trigger] syms[k]) || syms[k] is Leaf
        },
{
    reveal(production);
}

/// Item `i` is a token of the linked results `items`.
pub open spec fn at_token(input: Seq<u8>, items: Seq<LexItem>, i: int) -> bool {
    &&& linked(input, items)
    &&& 0 <= i < items.len()
    &&& items[i] is Tok
}

/// Matching a terminal ends at a token at or after `i`; a real token moves one item on.
pub proof fn lemma_terminal_progress(input: Seq<u8>, items: Seq<LexItem>, i: int, tok: Token, shown: Token)
    requires
        at_token(input, items, i),
    ensures
        parse_terminal(items, i, tok, shown) matches Ok((_, j)) ==> {
            &&& at_token(input, items, j)
            &&& i <= j
            &&& (tok != Token::Epsilon && tok != Token::Eof ==> j == i + 1)
        },
{
    if 0 <= i < items.len() - 1 {
        assert(items[i] matches LexItem::Tok(st) && st.token != Token::Eof);
    }
}

/// Parsing a symbol ends at a token at or after `i`, and after `i` unless the
/// symbol may derive the empty string.
pub proof fn lemma_symbol_progress(input: Seq<u8>, items: Seq<LexItem>, i: int, sym: Symbol)
    requires
        at_token(input, items, i),
    ensures
        parse_symbol(items, i, sym) matches Ok((_, j)) ==> {
            &&& at_token(input, items, j)
            &&& i <= j
            &&& (symbol_consumes(sym) ==> i < j)
        },
    decreases items.len() - i, rank_symbol(sym),
{
    match sym {
        Symbol::Term(t) => lemma_terminal_progress(input, items, i, t, t),
        Symbol::TermShownAs(t, shown) => lemma_terminal_progress(input, items, i, t, shown),
        Symbol::Leaf(_) => {},
        Symbol::Nonterm(nt) => lemma_nt_progress(input, items, i, nt),
    }
}

/// Parsing a nonterminal ends at a token at or after `i`, and after `i` when
/// the nonterminal never derives the empty string.
pub proof fn lemma_nt_progress(input: Seq<u8>, items: Seq<LexItem>, i: int, nt: NonTerminal)
    requires
        at_token(input, items, i),
    ensures
        parse_nt(items, i, nt) matches Ok((_, j)) ==> {
            &&& at_token(input, items, j)
            &&& i <= j
            &&& (consumes(nt) ==> i < j)
        },
    decreases items.len() - i, rank_nt(nt),
{
    lemma_production_shape(nt, state_at(items, i).token);
    match production(nt, state_at(items, i).token) {
        Err(_) => {},
        Ok((label, syms)) => {
            lemma_seq_progress(input, items, i, syms);
            lemma_symbol_progress(input, items, i, syms[0]);
        },
    }
}

/// Parsing a list of symbols ends at a token at or after `i`, with one subtree per symbol.
pub proof fn lemma_seq_progress(input: Seq<u8>, items: Seq<LexItem>, i: int, syms: Seq<Symbol>)
    requires
        at_token(input, items, i),
    ensures
        parse_seq(items, i, syms) matches Ok((ns, j)) ==> {
            &&& at_token(input, items, j)
            &&& i <= j
            &&& ns.len() == syms.len()
            &&& (syms.len() > 0 ==> (parse_symbol(items, i, syms[0]) matches Ok((_, j0)) && j0 <= j))
        },
    decreases items.len() - i, rank_symbols(syms),
{
    if syms.len() == 0 {
        assert(parse_seq(items, i, syms) == Ok::<(Seq<SNode>, int), (ErrorView, int)>((Seq::empty(), i)));
    }
    if syms.len() > 0 {
        lemma_rank_symbols_nonneg(syms.drop_first());
        lemma_symbol_progress(input, items, i, syms[0]);
        match parse_symbol(items, i, syms[0]) {
            Err(_) => {},
            Ok((n, j)) => {
                if syms.len() > 1 && ((syms[0] is Leaf && j == i) || i < j <= items.len()) {
                    lemma_seq_progress(input, items, j, syms.drop_first());
                }
            },
        }
    }
}


/// Parsing a nonterminal whose production is known.
pub proof fn lemma_parse_nt_unfold(items: Seq<LexItem>, i: int, nt: NonTerminal, label: Seq<char>, syms: Seq<Symbol>)
    requires
        production(nt, state_at(items, i).token) == Ok::<(Seq<char>, Seq<Symbol>), Seq<Token>>((label, syms)),
    ensures
        parse_nt(items, i, nt) == match parse_seq(items, i, syms) {
            Ok((kids, j)) => Ok((SNode { name: label, children: kids, is_term: false }, j)),
            Err(e) => Err(e),
        },
{
}


/// The tree `n` is built by a production of `nt`, and its children match the
/// production's symbols.
pub open spec fn conforms(n: SNode, nt: NonTerminal) -> bool
    decreases n, 1int,
{
    &&& !n.is_term
    &&& exists|la: Token| #[trigger] production(nt, la) matches Ok((label, syms))
        && label == n.name && children_conform(n.children, syms)
}

/// The subtree `c` matches the symbol `sym`: the tree of a nonterminal, a leaf
/// showing a terminal (an identifier or a number shows its own text), or the
/// leaf a [`Symbol::Leaf`] stands for.
pub open spec fn child_conforms(c: SNode, sym: Symbol) -> bool
    decreases c, 2int,
{
    match sym {
        Symbol::Nonterm(nt) => conforms(c, nt),
        Symbol::Term(t) => c.is_term && c.children.len() == 0
            && (t != Token::Id && t != Token::Number ==> c.name == token_text(t)),
        Symbol::TermShownAs(t, shown) => c.is_term && c.children.len() == 0
            && (t != Token::Id && t != Token::Number ==> c.name == token_text(shown)),
        Symbol::Leaf(t) => c == leaf(token_text(t)),
    }
}

/// The subtrees `cs` match the symbols `syms`, one for one.
pub open spec fn children_conform(cs: Seq<SNode>, syms: Seq<Symbol>) -> bool
    decreases cs, 0int,
{
    &&& cs.len() == syms.len()
    &&& forall|k: int| 0 <= k < cs.len() ==> child_conforms(#[trigger] cs[k], syms[k])
}

/// The error kinds that parsing may report.
pub open spec fn parse_error_kind(e: ErrorView) -> bool {
    e.kind == ParseErrorKind::LexerError || e.kind == ParseErrorKind::ParserError
}

/// Every error among linked lexer results is a lexer error.
pub proof fn lemma_items_error_kind(input: Seq<u8>, items: Seq<LexItem>, k: int)
    requires
        linked(input, items),
        0 < k < items.len(),
    ensures
        items[k] matches LexItem::Fail(_, e) ==> e.kind == ParseErrorKind::LexerError,
{
    assert(items[k - 1] matches LexItem::Tok(st) && yields(input, st, items[k]));
    if let LexItem::Tok(st) = items[k - 1] {
        lemma_lex_error_kind(input, st);
    }
}

/// What parsing a symbol yields: a subtree matching the symbol, or a lexer or parser error.
pub proof fn lemma_symbol_outcome(input: Seq<u8>, items: Seq<LexItem>, i: int, sym: Symbol)
    requires
        at_token(input, items, i),
    ensures
        parse_symbol(items, i, sym) matches Ok((n, _)) ==> child_conforms(n, sym),
        parse_symbol(items, i, sym) matches Err((e, _)) ==> parse_error_kind(e),
    decreases items.len() - i, rank_symbol(sym),
{
    match sym {
        Symbol::Nonterm(nt) => lemma_nt_outcome(input, items, i, nt),
        _ => {
            if i + 1 < items.len() {
                lemma_items_error_kind(input, items, i + 1);
            }
        },
    }
}

/// What parsing a nonterminal yields: a tree built by one of its productions,
/// or a lexer or parser error.
pub proof fn lemma_nt_outcome(input: Seq<u8>, items: Seq<LexItem>, i: int, nt: NonTerminal)
    requires
        at_token(input, items, i),
    ensures
        parse_nt(items, i, nt) matches Ok((n, _)) ==> conforms(n, nt),
        parse_nt(items, i, nt) matches Err((e, _)) ==> parse_error_kind(e),
    decreases items.len() - i, rank_nt(nt),
{
    let la = state_at(items, i).token;
    lemma_production_shape(nt, la);
    match production(nt, la) {
        Err(_) => {},
        Ok((label, syms)) => {
            lemma_seq_outcome(input, items, i, syms);
            if let Ok((n, _)) = parse_nt(items, i, nt) {
                assert(production(nt, la) matches Ok((l, ss)) && l == n.name && children_conform(n.children, ss));
            }
        },
    }
}

/// What parsing a list of symbols yields: subtrees matching them, or a lexer or parser error.
pub proof fn lemma_seq_outcome(input: Seq<u8>, items: Seq<LexItem>, i: int, syms: Seq<Symbol>)
    requires
        at_token(input, items, i),
    ensures
        parse_seq(items, i, syms) matches Ok((ns, _)) ==> children_conform(ns, syms),
        parse_seq(items, i, syms) matches Err((e, _)) ==> parse_error_kind(e),
    decreases items.len() - i, rank_symbols(syms),
{
    if syms.len() > 0 {
        lemma_rank_symbols_nonneg(syms.drop_first());
        lemma_symbol_outcome(input, items, i, syms[0]);
        lemma_symbol_progress(input, items, i, syms[0]);
        match parse_symbol(items, i, syms[0]) {
            Err(_) => {},
            Ok((n, j)) => {
                if syms.len() > 1 && ((syms[0] is Leaf && j == i) || i < j <= items.len()) {
                    lemma_seq_outcome(input, items, j, syms.drop_first());
                    if let Ok((ns, _)) = parse_seq(items, j, syms.drop_first()) {
                        let all = seq![n] + ns;
                        assert forall|k: int| 0 <= k < all.len() implies child_conforms(#[trigger] all[k], syms[k]) by {
                            if k > 0 {
                                assert(all[k] == ns[k - 1]);
                                assert(syms[k] == syms.drop_first()[k - 1]);
                            }
                        }
                    }
                }
            },
        }
    }
}

/// A declaration that parses yields a tree built by the grammar from the start
/// symbol `S`; one that does not yields a lexer or a parser error, never an
/// input error.
pub proof fn lemma_parse_outcome(input: Seq<u8>, st: LexState)
    requires
        st.idx <= input.len(),
    ensures
        parse_from(input, st) matches Ok(tree) ==> conforms(tree, NonTerminal::S),
        parse_from(input, st) matches Err(e) ==> parse_error_kind(e),
{
    let items = tokens_from(input, st);
    lemma_tokens_linked(input, st);
    if let LexItem::Fail(..) = items[0] {
        lemma_lex_error_kind(input, st);
    } else {
        lemma_nt_outcome(input, items, 0, NonTerminal::S);
    }
}


/// The terminals that carry text of their own: identifiers and numbers.
pub open spec fn is_word(t: Token) -> bool {
    t == Token::Id || t == Token::Number
}

/// The symbol matches an identifier or a number.
pub open spec fn symbol_is_word(sym: Symbol) -> bool {
    match sym {
        Symbol::Term(t) => is_word(t),
        Symbol::TermShownAs(t, _) => is_word(t),
        _ => false,
    }
}

/// The labels of the nodes whose first child is an identifier or a number.
pub open spec fn names_a_word(label: Seq<char>) -> bool {
    label == "X"@ || label == "T"@ || label == "N"@
}

/// The identifiers and numbers the tree `n` records, in order: the first
/// child of each node labelled `X`, `T` or `N`, in pre-order.
pub open spec fn words(n: SNode) -> Seq<Seq<char>>
    decreases n, 1int,
{
    if n.is_term {
        Seq::empty()
    } else {
        (if names_a_word(n.name) && n.children.len() > 0 { seq![n.children[0].name] } else { Seq::empty() })
            + words_list(n.children)
    }
}

/// The identifiers and numbers the trees `cs` record, one tree after the other.
pub open spec fn words_list(cs: Seq<SNode>) -> Seq<Seq<char>>
    decreases cs, 0int,
{
    if cs.len() == 0 {
        Seq::empty()
    } else {
        words(cs[0]) + words_list(cs.subrange(1, cs.len() as int))
    }
}

/// The texts of the identifier and number tokens among items `i` to `j - 1`.
pub open spec fn words_of(items: Seq<LexItem>, i: int, j: int) -> Seq<Seq<char>>
    decreases j - i,
{
    if j <= i {
        Seq::empty()
    } else {
        words_of(items, i, j - 1) + if is_word(state_at(items, j - 1).token) {
            seq![state_at(items, j - 1).last_id]
        } else {
            Seq::empty()
        }
    }
}

/// The words of items `i` to `j - 1` are those up to `m - 1` followed by the rest.
pub proof fn lemma_words_of_split(items: Seq<LexItem>, i: int, m: int, j: int)
    requires
        i <= m <= j,
    ensures
        words_of(items, i, j) == words_of(items, i, m) + words_of(items, m, j),
    decreases j - m,
{
    if m < j {
        lemma_words_of_split(items, i, m, j - 1);
        assert(words_of(items, i, j) =~= words_of(items, i, m) + words_of(items, m, j));
    } else {
        assert(words_of(items, m, j) =~= Seq::<Seq<char>>::empty());
        assert(words_of(items, i, j) =~= words_of(items, i, m) + words_of(items, m, j));
    }
}

/// Productions say which child names a word: only the first child, and only
/// below the labels `X`, `T` and `N`.
pub proof fn lemma_production_words(nt: NonTerminal, lookahead: Token)
    ensures
        production(nt, lookahead) matches Ok((label, syms)) ==> {
            &&& syms.len() >= 1
            &&& (names_a_word(label) <==> symbol_is_word(syms[0]))
            &&& forall|k: int| 1 <= k < syms.len() ==> !symbol_is_word(#[trigger] syms[k])
        },
{
    reveal(production);
    reveal_strlit("X");
    assert("X"@[0] == 'X');
    reveal_strlit("T");
    assert("T"@[0] == 'T');
    reveal_strlit("N");
    assert("N"@[0] == 'N');
    reveal_strlit("S");
    assert("S"@[0] == 'S');
    reveal_strlit("D");
    assert("D"@[0] == 'D');
    reveal_strlit("D'");
    assert("D'"@[0] == 'D');
    reveal_strlit("D''");
    assert("D''"@[0] == 'D');
    reveal_strlit("P");
    assert("P"@[0] == 'P');
    reveal_strlit("R");
    assert("R"@[0] == 'R');
    reveal_strlit("X'");
    assert("X'"@[0] == 'X');
    reveal_strlit("X''");
    assert("X''"@[0] == 'X');
    reveal_strlit("Y");
    assert("Y"@[0] == 'Y');
    assert("X'"@.len() == 2 && "X''"@.len() == 3 && "X"@.len() == 1);
}

/// The words of subtrees, each read as its symbol says: the text of a leaf
/// matching an identifier or a number, the words of any other subtree.
pub open spec fn words_seq(ns: Seq<SNode>, syms: Seq<Symbol>) -> Seq<Seq<char>>
    decreases ns.len(),
{
    if ns.len() == 0 || syms.len() == 0 {
        Seq::empty()
    } else {
        (if symbol_is_word(syms[0]) { seq![ns[0].name] } else { words(ns[0]) })
            + words_seq(ns.drop_first(), syms.drop_first())
    }
}

/// Subtrees that match their symbols, where only the first may name a word,
/// record the words that their symbols read.
pub proof fn lemma_words_seq_list(ns: Seq<SNode>, syms: Seq<Symbol>)
    requires
        children_conform(ns, syms),
        forall|k: int| 1 <= k < syms.len() ==> !symbol_is_word(#[trigger] syms[k]),
    ensures
        words_seq(ns, syms) == (if ns.len() > 0 && symbol_is_word(syms[0]) { seq![ns[0].name] } else { Seq::<Seq<char>>::empty() })
            + words_list(ns),
    decreases ns.len(),
{
    if ns.len() > 0 {
        let rest = ns.drop_first();
        let rsyms = syms.drop_first();
        assert(ns.subrange(1, ns.len() as int) == rest);
        assert forall|k: int| 0 <= k < rest.len() implies child_conforms(#[trigger] rest[k], rsyms[k]) by {
            assert(rest[k] == ns[k + 1]);
            assert(rsyms[k] == syms[k + 1]);
        }
        assert forall|k: int| 1 <= k < rsyms.len() implies !symbol_is_word(#[trigger] rsyms[k]) by {
            assert(rsyms[k] == syms[k + 1]);
        }
        lemma_words_seq_list(rest, rsyms);
        if rest.len() > 0 {
            assert(!symbol_is_word(rsyms[0]) ) by {
                assert(rsyms[0] == syms[1]);
            }
        }
        assert(child_conforms(ns[0], syms[0]));
        if symbol_is_word(syms[0]) {
            assert(words(ns[0]) =~= Seq::<Seq<char>>::empty());
        }
        assert(words_seq(ns, syms) =~= (if symbol_is_word(syms[0]) { seq![ns[0].name] } else { Seq::<Seq<char>>::empty() })
            + words_list(ns));
    }
}


/// The words a subtree records, read as its symbol says.
pub open spec fn symbol_words(n: SNode, sym: Symbol) -> Seq<Seq<char>> {
    if symbol_is_word(sym) { seq![n.name] } else { words(n) }
}

/// A symbol parsed from item `i` to item `j` records the words of those items.
pub proof fn lemma_symbol_words(input: Seq<u8>, items: Seq<LexItem>, i: int, sym: Symbol)
    requires
        at_token(input, items, i),
    ensures
        parse_symbol(items, i, sym) matches Ok((n, j)) ==> symbol_words(n, sym) == words_of(items, i, j),
    decreases items.len() - i, rank_symbol(sym),
{
    lemma_symbol_progress(input, items, i, sym);
    assert(items[i] matches LexItem::Tok(st) && (is_word(st.token) ==> st.last_id.len() > 0));
    if i + 1 < items.len() {
        assert(items[i] matches LexItem::Tok(st) && st.token != Token::Eof);
    }
    match sym {
        Symbol::Nonterm(nt) => lemma_nt_words(input, items, i, nt),
        _ => {
            if let Ok((n, j)) = parse_symbol(items, i, sym) {
                assert(words_of(items, i, i) =~= Seq::<Seq<char>>::empty());
                if j == i + 1 {
                    assert(words_of(items, i, j) =~= words_of(items, i, i) + (if is_word(state_at(items, i).token) {
                        seq![state_at(items, i).last_id]
                    } else {
                        Seq::<Seq<char>>::empty()
                    }));
                }
                if !symbol_is_word(sym) {
                    assert(words(n) =~= Seq::<Seq<char>>::empty());
                }
            }
        },
    }
}

/// A nonterminal parsed from item `i` to item `j` records the words of those items.
pub proof fn lemma_nt_words(input: Seq<u8>, items: Seq<LexItem>, i: int, nt: NonTerminal)
    requires
        at_token(input, items, i),
    ensures
        parse_nt(items, i, nt) matches Ok((t, j)) ==> words(t) == words_of(items, i, j),
    decreases items.len() - i, rank_nt(nt),
{
    let la = state_at(items, i).token;
    lemma_production_shape(nt, la);
    lemma_production_words(nt, la);
    match production(nt, la) {
        Err(_) => {},
        Ok((label, syms)) => {
            lemma_seq_words(input, items, i, syms);
            lemma_seq_outcome(input, items, i, syms);
            lemma_seq_progress(input, items, i, syms);
            if let Ok((kids, j)) = parse_seq(items, i, syms) {
                lemma_words_seq_list(kids, syms);
            }
        },
    }
}

/// Symbols parsed from item `i` to item `j` record the words of those items.
pub proof fn lemma_seq_words(input: Seq<u8>, items: Seq<LexItem>, i: int, syms: Seq<Symbol>)
    requires
        at_token(input, items, i),
    ensures
        parse_seq(items, i, syms) matches Ok((ns, j)) ==> words_seq(ns, syms) == words_of(items, i, j),
    decreases items.len() - i, rank_symbols(syms),
{
    if syms.len() == 0 {
        assert(words_of(items, i, i) =~= Seq::<Seq<char>>::empty());
    } else {
        lemma_rank_symbols_nonneg(syms.drop_first());
        lemma_symbol_words(input, items, i, syms[0]);
        lemma_symbol_progress(input, items, i, syms[0]);
        match parse_symbol(items, i, syms[0]) {
            Err(_) => {},
            Ok((n, j)) => {
                if syms.len() == 1 {
                    assert(seq![n].drop_first() =~= Seq::<SNode>::empty());
                    assert(words_seq(seq![n].drop_first(), syms.drop_first()) =~= Seq::<Seq<char>>::empty());
                    assert(words_seq(seq![n], syms) =~= symbol_words(n, syms[0]));
                } else if (syms[0] is Leaf && j == i) || i < j <= items.len() {
                    lemma_seq_words(input, items, j, syms.drop_first());
                    lemma_seq_progress(input, items, j, syms.drop_first());
                    if let Ok((ns, k)) = parse_seq(items, j, syms.drop_first()) {
                        let all = seq![n] + ns;
                        assert(all.drop_first() =~= ns);
                        lemma_words_of_split(items, i, j, k);
                    }
                }
            },
        }
    }
}

/// Symbols parsed from item `i` to item `j` whose last is the terminal `t`, a
/// token other than the end of file, end just after a token `t`.
pub proof fn lemma_seq_ends_with(input: Seq<u8>, items: Seq<LexItem>, i: int, syms: Seq<Symbol>, t: Token)
    requires
        at_token(input, items, i),
        syms.len() > 0,
        syms.last() == Symbol::Term(t),
        t != Token::Epsilon,
        t != Token::Eof,
    ensures
        parse_seq(items, i, syms) matches Ok((_, j)) ==> j >= 1 && state_at(items, j - 1).token == t,
    decreases syms.len(),
{
    lemma_rank_symbols_nonneg(syms.drop_first());
    lemma_symbol_progress(input, items, i, syms[0]);
    match parse_symbol(items, i, syms[0]) {
        Err(_) => {},
        Ok((n, j)) => {
            if syms.len() == 1 {
                lemma_terminal_progress(input, items, i, t, t);
            } else if (syms[0] is Leaf && j == i) || i < j <= items.len() {
                lemma_seq_ends_with(input, items, j, syms.drop_first(), t);
            }
        },
    }
}

/// A declaration that parses records, in order, the texts of the identifier
/// and number tokens of the input up to and including the semicolon that
/// ends it: the declared names, the bounds of each range and the type.
pub proof fn lemma_parse_words(input: Seq<u8>, st: LexState)
    requires
        st.idx <= input.len(),
    ensures
        parse_from(input, st) matches Ok(tree) ==> exists|j: int| 1 <= j <= tokens_from(input, st).len()
            && state_at(tokens_from(input, st), j - 1).token == Token::Semicolon
            && #[trigger] words_of(tokens_from(input, st), 0, j) == words(tree),
{
    let items = tokens_from(input, st);
    lemma_tokens_linked(input, st);
    if let LexItem::Tok(_) = items[0] {
        lemma_nt_words(input, items, 0, NonTerminal::S);
        lemma_nt_progress(input, items, 0, NonTerminal::S);
        reveal(production);
        let syms = match production(NonTerminal::S, state_at(items, 0).token) {
            Ok((_, syms)) => syms,
            Err(_) => Seq::empty(),
        };
        if let Ok((tree, j)) = parse_nt(items, 0, NonTerminal::S) {
            lemma_seq_ends_with(input, items, 0, syms, Token::Semicolon);
            assert(words_of(items, 0, j) == words(tree));
        }
    }
}

} // verus!
