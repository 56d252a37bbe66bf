//! The language the parser accepts: exactly the token sequences
//! `var id {, id} : array [ range {, range} ] of id ;`, where a range is
//! `number .. number` or `id`.
use vstd::prelude::*;

use crate::grammar::{
    LexItem, NonTerminal, Symbol, lemma_tokens_linked, parse_bytes, parse_end, parse_from, parse_nt, parse_seq,
    parse_symbol, parse_terminal, production, state_at, tokens_from,
};
use crate::lexer::{LexState, initial_state};
use crate::token::Token;

verus! {

/// The token of item `k`: the end of file for an error or beyond the items.
pub open spec fn token_at(items: Seq<LexItem>, k: int) -> Token {
    if 0 <= k < items.len() {
        match items[k] {
            LexItem::Tok(st) => st.token,
            LexItem::Fail(..) => Token::Eof,
        }
    } else {
        Token::Eof
    }
}

/// From item `i` on, the lexer yields the tokens `ts`, and after them it
/// yields a further token rather than an error.
pub open spec fn reads(items: Seq<LexItem>, i: int, ts: Seq<Token>) -> bool {
    &&& 0 <= i
    &&& i + ts.len() < items.len()
    &&& forall|m: int| i <= m <= i + ts.len() ==> #[trigger] items[m] is Tok
    &&& forall|m: int| i <= m < i + ts.len() ==> #[trigger] token_at(items, m) == ts[m - i]
}

/// The tokens of `n` names separated by commas: `id {, id}`.
pub open spec fn names_tokens(n: nat) -> Seq<Token>
    decreases n,
{
    if n <= 1 {
        seq![Token::Id]
    } else {
        seq![Token::Id, Token::Comma] + names_tokens((n - 1) as nat)
    }
}

/// The tokens of a range: `number .. number` when `bounded`, else `id`.
pub open spec fn range_tokens(bounded: bool) -> Seq<Token> {
    if bounded {
        seq![Token::Number, Token::DoubleDot, Token::Number]
    } else {
        seq![Token::Id]
    }
}

/// The tokens of the ranges `rs`, separated by commas.
pub open spec fn ranges_tokens(rs: Seq<bool>) -> Seq<Token>
    decreases rs.len(),
{
    if rs.len() == 0 {
        Seq::empty()
    } else if rs.len() == 1 {
        range_tokens(rs[0])
    } else {
        range_tokens(rs[0]) + seq![Token::Comma] + ranges_tokens(rs.drop_first())
    }
}

/// The tokens of a declaration of `n` names with the ranges `rs`:
/// `var id {, id} : array [ range {, range} ] of id ;`.
pub open spec fn declaration_tokens(n: nat, rs: Seq<bool>) -> Seq<Token> {
    seq![Token::Var] + names_tokens(n) + seq![Token::Colon, Token::Array, Token::OpenSBracket]
        + ranges_tokens(rs) + seq![Token::CloseSBracket, Token::Of, Token::Id, Token::Semicolon]
}

/// Reading `a + b` from item `i` reads `a` there and `b` after it.
pub proof fn lemma_reads_split(items: Seq<LexItem>, i: int, a: Seq<Token>, b: Seq<Token>)
    requires
        reads(items, i, a + b),
    ensures
        reads(items, i, a),
        reads(items, i + a.len(), b),
{
    assert forall|m: int| i <= m < i + a.len() implies #[trigger] token_at(items, m) == a[m - i] by {
        assert((a + b)[m - i] == a[m - i]);
    }
    assert forall|m: int| i + a.len() <= m < i + a.len() + b.len() implies #[trigger] token_at(items, m) == b[m - (i + a.len())] by {
        assert((a + b)[m - i] == b[m - i - a.len()]);
    }
}

/// The token `t`, other than the end of file and the empty string, matched at
/// item `i` where it stands, moves on to the next item when that is a token.
pub proof fn lemma_terminal_ok(items: Seq<LexItem>, i: int, t: Token, shown: Token)
    requires
        token_at(items, i) == t,
        t != Token::Eof,
        t != Token::Epsilon,
        0 <= i,
        i + 1 < items.len(),
        items[i + 1] is Tok,
    ensures
        parse_terminal(items, i, t, shown) matches Ok((_, j)) && j == i + 1,
{
}

/// The parse result `r` ends at item `j`.
pub open spec fn ends_at<A>(r: Result<(A, int), (crate::parse_error::ErrorView, int)>, j: int) -> bool {
    r matches Ok((_, k)) && k == j
}

/// A nonterminal whose production is known ends where its symbols end.
pub proof fn lemma_nt_ends(items: Seq<LexItem>, i: int, nt: NonTerminal, label: Seq<char>, syms: Seq<Symbol>, k: int)
    requires
        production(nt, state_at(items, i).token) == Ok::<(Seq<char>, Seq<Symbol>), Seq<Token>>((label, syms)),
    ensures
        ends_at(parse_nt(items, i, nt), k) == ends_at(parse_seq(items, i, syms), k),
{
}

/// A single symbol ends where it ends.
pub proof fn lemma_seq_one_ends(items: Seq<LexItem>, i: int, syms: Seq<Symbol>, k: int)
    requires
        syms.len() == 1,
    ensures
        ends_at(parse_seq(items, i, syms), k) == ends_at(parse_symbol(items, i, syms[0]), k),
{
}

/// Symbols whose first is parsed from `i` to `j`, a later item, end where the rest ends.
pub proof fn lemma_seq_cons_ends(items: Seq<LexItem>, i: int, syms: Seq<Symbol>, j: int, k: int)
    requires
        syms.len() >= 2,
        ends_at(parse_symbol(items, i, syms[0]), j),
        i < j <= items.len(),
    ensures
        ends_at(parse_seq(items, i, syms), k) == ends_at(parse_seq(items, j, syms.drop_first()), k),
{
}

/// Parsed symbols split into the first and the rest.
pub proof fn lemma_seq_split(items: Seq<LexItem>, i: int, syms: Seq<Symbol>) -> (j: int)
    requires
        syms.len() >= 2,
    ensures
        parse_seq(items, i, syms) matches Ok((_, k)) ==> ends_at(parse_symbol(items, i, syms[0]), j)
            && ends_at(parse_seq(items, j, syms.drop_first()), k),
{
    match parse_symbol(items, i, syms[0]) {
        Ok((_, j)) => j,
        Err(_) => i,
    }
}

/// `X'' -> eps` and `Y -> eps` where the current token is a colon.
pub proof fn lemma_names_tail_colon(items: Seq<LexItem>, i: int)
    requires
        0 <= i < items.len(),
        items[i] is Tok,
        token_at(items, i) == Token::Colon,
    ensures
        ends_at(parse_nt(items, i, NonTerminal::XDoublePrime), i),
        ends_at(parse_nt(items, i, NonTerminal::Y), i),
{
    let eps = seq![Symbol::Term(Token::Epsilon)];
    assert(production(NonTerminal::XDoublePrime, Token::Colon) == Ok::<(Seq<char>, Seq<Symbol>), Seq<Token>>(("X''"@, eps))) by {
        reveal(production);
    }
    assert(production(NonTerminal::Y, Token::Colon) == Ok::<(Seq<char>, Seq<Symbol>), Seq<Token>>(("Y"@, eps))) by {
        reveal(production);
    }
    lemma_seq_one_ends(items, i, eps, i);
    lemma_nt_ends(items, i, NonTerminal::XDoublePrime, "X''"@, eps, i);
    lemma_nt_ends(items, i, NonTerminal::Y, "Y"@, eps, i);
}

/// The names `id {, id}` followed by a colon parse as `X`, up to the colon.
pub proof fn lemma_names_complete(items: Seq<LexItem>, i: int, n: nat)
    requires
        n >= 1,
        reads(items, i, names_tokens(n)),
        token_at(items, i + names_tokens(n).len()) == Token::Colon,
    ensures
        ends_at(parse_nt(items, i, NonTerminal::X), i + names_tokens(n).len()),
    decreases n,
{
    let e = i + names_tokens(n).len();
    assert(token_at(items, i) == names_tokens(n)[0]);
    assert(items[i + 1] is Tok);
    assert(items[e] is Tok);
    lemma_terminal_ok(items, i, Token::Id, Token::Id);
    let xdd = seq![Symbol::Nonterm(NonTerminal::XDoublePrime)];
    let x_syms = seq![Symbol::Term(Token::Id), Symbol::Nonterm(NonTerminal::XDoublePrime)];
    assert(x_syms.drop_first() =~= xdd);
    assert(production(NonTerminal::X, Token::Id) == Ok::<(Seq<char>, Seq<Symbol>), Seq<Token>>(("X"@, x_syms))) by {
        reveal(production);
    }
    if n == 1 {
        lemma_names_tail_colon(items, i + 1);
    } else {
        let rest = names_tokens((n - 1) as nat);
        assert(names_tokens(n) == seq![Token::Id, Token::Comma] + rest);
        lemma_reads_split(items, i, seq![Token::Id, Token::Comma], rest);
        assert(token_at(items, i + 1) == Token::Comma);
        assert(items[i + 2] is Tok);
        lemma_names_complete(items, i + 2, (n - 1) as nat);
        lemma_terminal_ok(items, i + 1, Token::Comma, Token::Comma);
        lemma_names_tail_colon(items, e);
        let y = seq![Symbol::Nonterm(NonTerminal::Y)];
        lemma_seq_one_ends(items, e, y, e);
        let xy = seq![Symbol::Nonterm(NonTerminal::X), Symbol::Nonterm(NonTerminal::Y)];
        assert(xy.drop_first() =~= y);
        lemma_seq_cons_ends(items, i + 2, xy, e, e);
        let xs_syms = seq![Symbol::Term(Token::Comma), Symbol::Nonterm(NonTerminal::X), Symbol::Nonterm(NonTerminal::Y)];
        assert(xs_syms.drop_first() =~= xy);
        lemma_seq_cons_ends(items, i + 1, xs_syms, i + 2, e);
        assert(production(NonTerminal::XPrime, Token::Comma) == Ok::<(Seq<char>, Seq<Symbol>), Seq<Token>>(("X'"@, xs_syms))) by {
            reveal(production);
        }
        lemma_nt_ends(items, i + 1, NonTerminal::XPrime, "X'"@, xs_syms, e);
        let xp = seq![Symbol::Nonterm(NonTerminal::XPrime)];
        lemma_seq_one_ends(items, i + 1, xp, e);
        assert(production(NonTerminal::XDoublePrime, Token::Comma) == Ok::<(Seq<char>, Seq<Symbol>), Seq<Token>>(("X''"@, xp))) by {
            reveal(production);
        }
        lemma_nt_ends(items, i + 1, NonTerminal::XDoublePrime, "X''"@, xp, e);
    }
    lemma_seq_one_ends(items, i + 1, xdd, e);
    lemma_seq_cons_ends(items, i, x_syms, i + 1, e);
    lemma_nt_ends(items, i, NonTerminal::X, "X"@, x_syms, e);
}

/// Symbols starting with a leaf end where the rest ends.
pub proof fn lemma_seq_leaf_ends(items: Seq<LexItem>, i: int, syms: Seq<Symbol>, k: int)
    requires
        syms.len() >= 2,
        syms[0] is Leaf,
    ensures
        ends_at(parse_seq(items, i, syms), k) == ends_at(parse_seq(items, i, syms.drop_first()), k),
{
    assert(parse_symbol(items, i, syms[0]) matches Ok((_, j)) && j == i);
}

/// `D'' -> eps` and `P -> eps` where the current token is a closing bracket.
pub proof fn lemma_ranges_tail_close(items: Seq<LexItem>, i: int)
    requires
        0 <= i < items.len(),
        items[i] is Tok,
        token_at(items, i) == Token::CloseSBracket,
    ensures
        ends_at(parse_nt(items, i, NonTerminal::DDoublePrime), i),
        ends_at(parse_nt(items, i, NonTerminal::P), i),
{
    let eps = seq![Symbol::Term(Token::Epsilon)];
    assert(production(NonTerminal::DDoublePrime, Token::CloseSBracket) == Ok::<(Seq<char>, Seq<Symbol>), Seq<Token>>(("D''"@, eps))) by {
        reveal(production);
    }
    assert(production(NonTerminal::P, Token::CloseSBracket) == Ok::<(Seq<char>, Seq<Symbol>), Seq<Token>>(("P"@, eps))) by {
        reveal(production);
    }
    lemma_seq_one_ends(items, i, eps, i);
    lemma_nt_ends(items, i, NonTerminal::DDoublePrime, "D''"@, eps, i);
    lemma_nt_ends(items, i, NonTerminal::P, "P"@, eps, i);
}

/// A number where it stands parses as `N`.
pub proof fn lemma_number_complete(items: Seq<LexItem>, i: int)
    requires
        0 <= i,
        i + 1 < items.len(),
        items[i + 1] is Tok,
        token_at(items, i) == Token::Number,
    ensures
        ends_at(parse_nt(items, i, NonTerminal::N), i + 1),
{
    let syms = seq![Symbol::Term(Token::Number)];
    assert(production(NonTerminal::N, Token::Number) == Ok::<(Seq<char>, Seq<Symbol>), Seq<Token>>(("N"@, syms))) by {
        reveal(production);
    }
    lemma_terminal_ok(items, i, Token::Number, Token::Number);
    lemma_seq_one_ends(items, i, syms, i + 1);
    lemma_nt_ends(items, i, NonTerminal::N, "N"@, syms, i + 1);
}

/// A range parses as `R`.
pub proof fn lemma_range_complete(items: Seq<LexItem>, i: int, bounded: bool)
    requires
        reads(items, i, range_tokens(bounded)),
    ensures
        ends_at(parse_nt(items, i, NonTerminal::R), i + range_tokens(bounded).len()),
{
    let ts = range_tokens(bounded);
    assert(token_at(items, i) == ts[0]);
    assert(items[i + 1] is Tok);
    if bounded {
        assert(token_at(items, i + 1) == ts[1]);
        assert(token_at(items, i + 2) == ts[2]);
        assert(items[i + 2] is Tok);
        assert(items[i + 3] is Tok);
        let syms = seq![
            Symbol::Nonterm(NonTerminal::N), Symbol::TermShownAs(Token::DoubleDot, Token::Dot),
            Symbol::Leaf(Token::Dot), Symbol::Nonterm(NonTerminal::N),
        ];
        assert(production(NonTerminal::R, Token::Number) == Ok::<(Seq<char>, Seq<Symbol>), Seq<Token>>(("R"@, syms))) by {
            reveal(production);
        }
        lemma_number_complete(items, i);
        lemma_number_complete(items, i + 2);
        lemma_terminal_ok(items, i + 1, Token::DoubleDot, Token::Dot);
        let s3 = syms.drop_first();
        let s2 = s3.drop_first();
        let s1 = s2.drop_first();
        assert(s1 =~= seq![Symbol::Nonterm(NonTerminal::N)]);
        lemma_seq_one_ends(items, i + 2, s1, i + 3);
        lemma_seq_leaf_ends(items, i + 2, s2, i + 3);
        lemma_seq_cons_ends(items, i + 1, s3, i + 2, i + 3);
        lemma_seq_cons_ends(items, i, syms, i + 1, i + 3);
        lemma_nt_ends(items, i, NonTerminal::R, "R"@, syms, i + 3);
    } else {
        let syms = seq![Symbol::Term(Token::Id)];
        assert(production(NonTerminal::R, Token::Id) == Ok::<(Seq<char>, Seq<Symbol>), Seq<Token>>(("T"@, syms))) by {
            reveal(production);
        }
        lemma_terminal_ok(items, i, Token::Id, Token::Id);
        lemma_seq_one_ends(items, i, syms, i + 1);
        lemma_nt_ends(items, i, NonTerminal::R, "T"@, syms, i + 1);
    }
}

/// Ranges separated by commas and followed by a closing bracket parse as `D`,
/// up to the bracket.
pub proof fn lemma_ranges_complete(items: Seq<LexItem>, i: int, rs: Seq<bool>)
    requires
        rs.len() >= 1,
        reads(items, i, ranges_tokens(rs)),
        token_at(items, i + ranges_tokens(rs).len()) == Token::CloseSBracket,
    ensures
        ends_at(parse_nt(items, i, NonTerminal::D), i + ranges_tokens(rs).len()),
    decreases rs.len(),
{
    let e = i + ranges_tokens(rs).len();
    let first = range_tokens(rs[0]);
    let r = i + first.len();
    assert(items[e] is Tok);
    let dd = seq![Symbol::Nonterm(NonTerminal::DDoublePrime)];
    let d_syms = seq![Symbol::Nonterm(NonTerminal::R), Symbol::Nonterm(NonTerminal::DDoublePrime)];
    assert(d_syms.drop_first() =~= dd);
    assert(production(NonTerminal::D, state_at(items, i).token) == Ok::<(Seq<char>, Seq<Symbol>), Seq<Token>>(("D"@, d_syms))) by {
        reveal(production);
    }
    if rs.len() == 1 {
        lemma_range_complete(items, i, rs[0]);
        lemma_ranges_tail_close(items, r);
    } else {
        let rest = ranges_tokens(rs.drop_first());
        assert(ranges_tokens(rs) == first + seq![Token::Comma] + rest);
        lemma_reads_split(items, i, first + seq![Token::Comma], rest);
        lemma_reads_split(items, i, first, seq![Token::Comma]);
        lemma_range_complete(items, i, rs[0]);
        assert(token_at(items, r) == Token::Comma);
        assert(items[r] is Tok);
        assert(items[r + 1] is Tok);
        lemma_ranges_complete(items, r + 1, rs.drop_first());
        lemma_terminal_ok(items, r, Token::Comma, Token::Comma);
        lemma_ranges_tail_close(items, e);
        let p = seq![Symbol::Nonterm(NonTerminal::P)];
        lemma_seq_one_ends(items, e, p, e);
        let dp = seq![Symbol::Nonterm(NonTerminal::D), Symbol::Nonterm(NonTerminal::P)];
        assert(dp.drop_first() =~= p);
        lemma_seq_cons_ends(items, r + 1, dp, e, e);
        let ds_syms = seq![Symbol::Term(Token::Comma), Symbol::Nonterm(NonTerminal::D), Symbol::Nonterm(NonTerminal::P)];
        assert(ds_syms.drop_first() =~= dp);
        lemma_seq_cons_ends(items, r, ds_syms, r + 1, e);
        assert(production(NonTerminal::DPrime, Token::Comma) == Ok::<(Seq<char>, Seq<Symbol>), Seq<Token>>(("D'"@, ds_syms))) by {
            reveal(production);
        }
        lemma_nt_ends(items, r, NonTerminal::DPrime, "D'"@, ds_syms, e);
        let dprime = seq![Symbol::Nonterm(NonTerminal::DPrime)];
        lemma_seq_one_ends(items, r, dprime, e);
        assert(production(NonTerminal::DDoublePrime, Token::Comma) == Ok::<(Seq<char>, Seq<Symbol>), Seq<Token>>(("D''"@, dprime))) by {
            reveal(production);
        }
        lemma_nt_ends(items, r, NonTerminal::DDoublePrime, "D''"@, dprime, e);
    }
    lemma_seq_one_ends(items, r, dd, e);
    lemma_seq_cons_ends(items, i, d_syms, r, e);
    lemma_nt_ends(items, i, NonTerminal::D, "D"@, d_syms, e);
}

/// Symbols each parsed from `starts[k]` to `starts[k + 1]`, every start
/// before the next, end at the last start.
pub proof fn lemma_seq_chain(items: Seq<LexItem>, syms: Seq<Symbol>, starts: Seq<int>, k: int)
    requires
        syms.len() >= 1,
        starts.len() == syms.len() + 1,
        0 <= k < syms.len(),
        forall|m: int| 0 <= m < syms.len() ==> #[trigger] ends_at(parse_symbol(items, starts[m], syms[m]), starts[m + 1]),
        forall|m: int| 0 <= m < syms.len() ==> starts[m] < #[trigger] starts[m + 1] <= items.len(),
    ensures
        ends_at(parse_seq(items, starts[k], syms.skip(k)), starts[syms.len() as int]),
    decreases syms.len() - k,
{
    let rest = syms.skip(k);
    assert(rest[0] == syms[k]);
    assert(starts[k] < starts[k + 1]);
    if k + 1 == syms.len() {
        lemma_seq_one_ends(items, starts[k], rest, starts[syms.len() as int]);
    } else {
        lemma_seq_chain(items, syms, starts, k + 1);
        assert(rest.drop_first() =~= syms.skip(k + 1));
        lemma_seq_cons_ends(items, starts[k], rest, starts[k + 1], starts[syms.len() as int]);
    }
}

/// The production of `S`.
pub open spec fn s_symbols() -> Seq<Symbol> {
    seq![
        Symbol::Term(Token::Var), Symbol::Nonterm(NonTerminal::X), Symbol::Term(Token::Colon),
        Symbol::Term(Token::Array), Symbol::Term(Token::OpenSBracket), Symbol::Nonterm(NonTerminal::D),
        Symbol::Term(Token::CloseSBracket), Symbol::Term(Token::Of), Symbol::Nonterm(NonTerminal::T),
        Symbol::Term(Token::Semicolon),
    ]
}

/// Where the parts of a declaration stand: the names from item 1, the colon
/// at `c`, the ranges from `c + 3`, the closing bracket at `b`.
pub proof fn lemma_declaration_layout(items: Seq<LexItem>, n: nat, rs: Seq<bool>)
    requires
        reads(items, 0, declaration_tokens(n, rs)),
    ensures
        ({
            let c = (names_tokens(n).len() + 1) as int;
            let b = c + 3 + ranges_tokens(rs).len();
            &&& declaration_tokens(n, rs).len() == b + 4
            &&& b + 4 < items.len()
            &&& forall|m: int| 0 <= m <= b + 4 ==> #[trigger] items[m] is Tok
            &&& reads(items, 1, names_tokens(n))
            &&& reads(items, c + 3, ranges_tokens(rs))
            &&& token_at(items, 0) == Token::Var
            &&& token_at(items, c) == Token::Colon
            &&& token_at(items, c + 1) == Token::Array
            &&& token_at(items, c + 2) == Token::OpenSBracket
            &&& token_at(items, b) == Token::CloseSBracket
            &&& token_at(items, b + 1) == Token::Of
            &&& token_at(items, b + 2) == Token::Id
            &&& token_at(items, b + 3) == Token::Semicolon
        }),
{
    let names = names_tokens(n);
    let ranges = ranges_tokens(rs);
    let open = seq![Token::Colon, Token::Array, Token::OpenSBracket];
    let close = seq![Token::CloseSBracket, Token::Of, Token::Id, Token::Semicolon];
    let a2 = seq![Token::Var] + names;
    let a1 = a2 + open;
    let a = a1 + ranges;
    assert(declaration_tokens(n, rs) == a + close);
    lemma_reads_split(items, 0, a, close);
    lemma_reads_split(items, 0, a1, ranges);
    lemma_reads_split(items, 0, a2, open);
    lemma_reads_split(items, 0, seq![Token::Var], names);
    let c: int = (names.len() + 1) as int;
    let b: int = c + 3 + ranges.len();
    assert(token_at(items, 0) == seq![Token::Var][0]);
    assert(token_at(items, c) == open[0]);
    assert(token_at(items, c + 1) == open[1]);
    assert(token_at(items, c + 2) == open[2]);
    assert(token_at(items, b) == close[0]);
    assert(token_at(items, b + 1) == close[1]);
    assert(token_at(items, b + 2) == close[2]);
    assert(token_at(items, b + 3) == close[3]);
}

/// The symbols of `S` each parsed where the declaration says.
pub proof fn lemma_s_symbols_chain(items: Seq<LexItem>, starts: Seq<int>)
    requires
        starts.len() == 11,
        forall|m: int| 0 <= m < 10 ==> starts[m] < #[trigger] starts[m + 1] <= items.len(),
        ends_at(parse_symbol(items, starts[0], Symbol::Term(Token::Var)), starts[1]),
        ends_at(parse_symbol(items, starts[1], Symbol::Nonterm(NonTerminal::X)), starts[2]),
        ends_at(parse_symbol(items, starts[2], Symbol::Term(Token::Colon)), starts[3]),
        ends_at(parse_symbol(items, starts[3], Symbol::Term(Token::Array)), starts[4]),
        ends_at(parse_symbol(items, starts[4], Symbol::Term(Token::OpenSBracket)), starts[5]),
        ends_at(parse_symbol(items, starts[5], Symbol::Nonterm(NonTerminal::D)), starts[6]),
        ends_at(parse_symbol(items, starts[6], Symbol::Term(Token::CloseSBracket)), starts[7]),
        ends_at(parse_symbol(items, starts[7], Symbol::Term(Token::Of)), starts[8]),
        ends_at(parse_symbol(items, starts[8], Symbol::Nonterm(NonTerminal::T)), starts[9]),
        ends_at(parse_symbol(items, starts[9], Symbol::Term(Token::Semicolon)), starts[10]),
    ensures
        ends_at(parse_seq(items, starts[0], s_symbols()), starts[10]),
{
    let syms = s_symbols();
    assert forall|m: int| 0 <= m < syms.len() implies #[trigger] ends_at(parse_symbol(items, starts[m], syms[m]), starts[m + 1]) by {
        if m == 0 {} else if m == 1 {} else if m == 2 {} else if m == 3 {} else if m == 4 {}
        else if m == 5 {} else if m == 6 {} else if m == 7 {} else if m == 8 {} else {}
    }
    lemma_seq_chain(items, syms, starts, 0);
    assert(syms.skip(0) =~= syms);
}

/// The declaration tokens parse as `S`, up to the item after the semicolon.
#[verifier::rlimit(60)]
pub proof fn lemma_declaration_complete(items: Seq<LexItem>, n: nat, rs: Seq<bool>)
    requires
        n >= 1,
        rs.len() >= 1,
        reads(items, 0, declaration_tokens(n, rs)),
    ensures
        ends_at(parse_nt(items, 0, NonTerminal::S), declaration_tokens(n, rs).len() as int),
{
    lemma_declaration_layout(items, n, rs);
    let c: int = (names_tokens(n).len() + 1) as int;
    let b: int = c + 3 + ranges_tokens(rs).len();
    let end: int = b + 4;
    assert(items[end] is Tok);
    lemma_names_complete(items, 1, n);
    lemma_ranges_complete(items, c + 3, rs);
    assert(items[1] is Tok && items[c + 1] is Tok && items[c + 2] is Tok && items[c + 3] is Tok);
    assert(items[b + 1] is Tok && items[b + 2] is Tok && items[b + 3] is Tok);
    lemma_terminal_ok(items, 0, Token::Var, Token::Var);
    lemma_terminal_ok(items, c, Token::Colon, Token::Colon);
    lemma_terminal_ok(items, c + 1, Token::Array, Token::Array);
    lemma_terminal_ok(items, c + 2, Token::OpenSBracket, Token::OpenSBracket);
    lemma_terminal_ok(items, b, Token::CloseSBracket, Token::CloseSBracket);
    lemma_terminal_ok(items, b + 1, Token::Of, Token::Of);
    lemma_terminal_ok(items, b + 2, Token::Id, Token::Id);
    lemma_terminal_ok(items, b + 3, Token::Semicolon, Token::Semicolon);
    let t_syms = seq![Symbol::Term(Token::Id)];
    assert(production(NonTerminal::T, Token::Id) == Ok::<(Seq<char>, Seq<Symbol>), Seq<Token>>(("T"@, t_syms))) by {
        reveal(production);
    }
    lemma_seq_one_ends(items, b + 2, t_syms, b + 3);
    lemma_nt_ends(items, b + 2, NonTerminal::T, "T"@, t_syms, b + 3);
    let starts: Seq<int> = seq![0, 1, c, c + 1, c + 2, c + 3, b, b + 1, b + 2, b + 3, end];
    lemma_s_symbols_chain(items, starts);
    assert(production(NonTerminal::S, Token::Var) == Ok::<(Seq<char>, Seq<Symbol>), Seq<Token>>(("S"@, s_symbols()))) by {
        reveal(production);
    }
    lemma_nt_ends(items, 0, NonTerminal::S, "S"@, s_symbols(), end);
}


/// The last item, if a token, is the end of file.
pub open spec fn ends_with_eof(items: Seq<LexItem>) -> bool {
    &&& items.len() > 0
    &&& items.last() matches LexItem::Tok(st) ==> st.token == Token::Eof
}

/// Reading `a` and then `b` reads `a + b`.
pub proof fn lemma_reads_join(items: Seq<LexItem>, i: int, a: Seq<Token>, b: Seq<Token>)
    requires
        reads(items, i, a),
        reads(items, i + a.len(), b),
    ensures
        reads(items, i, a + b),
{
    assert forall|m: int| i <= m < i + (a + b).len() implies #[trigger] token_at(items, m) == (a + b)[m - i] by {
        if m < i + a.len() {
            assert(token_at(items, m) == a[m - i]);
        } else {
            assert(token_at(items, m) == b[m - (i + a.len())]);
        }
    }
}

/// A token other than the end of file and the empty string matched at item
/// `i` stands there, and the next item is a token.
pub proof fn lemma_terminal_inv(items: Seq<LexItem>, i: int, t: Token, shown: Token)
    requires
        0 <= i < items.len(),
        ends_with_eof(items),
        t != Token::Eof,
        t != Token::Epsilon,
    ensures
        parse_terminal(items, i, t, shown) matches Ok((_, j)) ==> {
            &&& j == i + 1
            &&& reads(items, i, seq![t])
        },
{
    if let Ok((_, j)) = parse_terminal(items, i, t, shown) {
        assert(items[i] is Tok);
        if i + 1 == items.len() {
            assert(items[i] == items.last());
        }
        assert(token_at(items, i) == seq![t][i - i]);
    }
}

/// A nonterminal that parses has a production for the current token.
pub proof fn lemma_nt_inv(items: Seq<LexItem>, i: int, nt: NonTerminal) -> (p: (Seq<char>, Seq<Symbol>))
    ensures
        parse_nt(items, i, nt) matches Ok((_, k)) ==> {
            &&& production(nt, state_at(items, i).token) == Ok::<(Seq<char>, Seq<Symbol>), Seq<Token>>(p)
            &&& ends_at(parse_seq(items, i, p.1), k)
        },
{
    match production(nt, state_at(items, i).token) {
        Ok(p) => p,
        Err(_) => (Seq::empty(), Seq::empty()),
    }
}

/// What parses as `X` is names followed by a colon, up to the colon.
pub proof fn lemma_names_sound(items: Seq<LexItem>, i: int) -> (n: nat)
    requires
        0 <= i < items.len(),
        ends_with_eof(items),
    ensures
        parse_nt(items, i, NonTerminal::X) matches Ok((_, j)) ==> {
            &&& n >= 1
            &&& reads(items, i, names_tokens(n))
            &&& j == i + names_tokens(n).len()
            &&& token_at(items, j) == Token::Colon
        },
    decreases items.len() - i,
{
    let p = lemma_nt_inv(items, i, NonTerminal::X);
    if let Ok((_, j)) = parse_nt(items, i, NonTerminal::X) {
        let x_syms = seq![Symbol::Term(Token::Id), Symbol::Nonterm(NonTerminal::XDoublePrime)];
        assert(p.1 == x_syms) by {
            reveal(production);
        }
        let j1 = lemma_seq_split(items, i, x_syms);
        lemma_terminal_inv(items, i, Token::Id, Token::Id);
        assert(j1 == i + 1);
        let xdd = seq![Symbol::Nonterm(NonTerminal::XDoublePrime)];
        assert(x_syms.drop_first() =~= xdd);
        lemma_seq_one_ends(items, j1, xdd, j);
        let tok = state_at(items, j1).token;
        let q = lemma_nt_inv(items, j1, NonTerminal::XDoublePrime);
        assert(items[j1] is Tok);
        if tok == Token::Colon {
            assert(q.1 == seq![Symbol::Term(Token::Epsilon)]) by {
                reveal(production);
            }
            assert(j == j1);
            assert(names_tokens(1) == seq![Token::Id]);
            assert(token_at(items, j) == Token::Colon);
            1
        } else {
            assert(tok == Token::Comma && q.1 == seq![Symbol::Nonterm(NonTerminal::XPrime)]) by {
                reveal(production);
            }
            lemma_seq_one_ends(items, j1, q.1, j);
            let r = lemma_nt_inv(items, j1, NonTerminal::XPrime);
            let xs_syms = seq![Symbol::Term(Token::Comma), Symbol::Nonterm(NonTerminal::X), Symbol::Nonterm(NonTerminal::Y)];
            assert(r.1 == xs_syms) by {
                reveal(production);
            }
            let j2 = lemma_seq_split(items, j1, xs_syms);
            lemma_terminal_inv(items, j1, Token::Comma, Token::Comma);
            assert(j2 == i + 2);
            let xy = seq![Symbol::Nonterm(NonTerminal::X), Symbol::Nonterm(NonTerminal::Y)];
            assert(xs_syms.drop_first() =~= xy);
            let e = lemma_seq_split(items, j2, xy);
            let m = lemma_names_sound(items, j2);
            assert(e == j2 + names_tokens(m).len());
            let y = seq![Symbol::Nonterm(NonTerminal::Y)];
            assert(xy.drop_first() =~= y);
            lemma_seq_one_ends(items, e, y, j);
            let u = lemma_nt_inv(items, e, NonTerminal::Y);
            assert(items[e] is Tok);
            assert(u.1 == seq![Symbol::Term(Token::Epsilon)]) by {
                reveal(production);
            }
            assert(j == e);
            let n = m + 1;
            assert(names_tokens(n) == seq![Token::Id, Token::Comma] + names_tokens(m));
            lemma_reads_join(items, i, seq![Token::Id], seq![Token::Comma]);
            assert(seq![Token::Id] + seq![Token::Comma] =~= seq![Token::Id, Token::Comma]);
            lemma_reads_join(items, i, seq![Token::Id, Token::Comma], names_tokens(m));
            n
        }
    } else {
        1
    }
}

/// What parses as `N` is a number, one item long.
pub proof fn lemma_number_sound(items: Seq<LexItem>, i: int)
    requires
        0 <= i < items.len(),
        ends_with_eof(items),
    ensures
        parse_nt(items, i, NonTerminal::N) matches Ok((_, j)) ==> j == i + 1 && reads(items, i, seq![Token::Number]),
{
    let p = lemma_nt_inv(items, i, NonTerminal::N);
    if let Ok((_, j)) = parse_nt(items, i, NonTerminal::N) {
        let syms = seq![Symbol::Term(Token::Number)];
        assert(p.1 == syms) by {
            reveal(production);
        }
        lemma_seq_one_ends(items, i, syms, j);
        lemma_terminal_inv(items, i, Token::Number, Token::Number);
    }
}

/// What parses as `R` is a range, up to its end.
pub proof fn lemma_range_sound(items: Seq<LexItem>, i: int) -> (bounded: bool)
    requires
        0 <= i < items.len(),
        ends_with_eof(items),
    ensures
        parse_nt(items, i, NonTerminal::R) matches Ok((_, j)) ==> reads(items, i, range_tokens(bounded))
            && j == i + range_tokens(bounded).len(),
{
    let p = lemma_nt_inv(items, i, NonTerminal::R);
    if let Ok((_, j)) = parse_nt(items, i, NonTerminal::R) {
        if state_at(items, i).token == Token::Number {
            let syms = seq![
                Symbol::Nonterm(NonTerminal::N), Symbol::TermShownAs(Token::DoubleDot, Token::Dot),
                Symbol::Leaf(Token::Dot), Symbol::Nonterm(NonTerminal::N),
            ];
            assert(p.1 == syms) by {
                reveal(production);
            }
            let j1 = lemma_seq_split(items, i, syms);
            lemma_number_sound(items, i);
            let s3 = syms.drop_first();
            let j2 = lemma_seq_split(items, j1, s3);
            lemma_terminal_inv(items, j1, Token::DoubleDot, Token::Dot);
            let s2 = s3.drop_first();
            lemma_seq_leaf_ends(items, j2, s2, j);
            let s1 = s2.drop_first();
            assert(s1 =~= seq![Symbol::Nonterm(NonTerminal::N)]);
            lemma_seq_one_ends(items, j2, s1, j);
            lemma_number_sound(items, j2);
            lemma_reads_join(items, i, seq![Token::Number], seq![Token::DoubleDot]);
            lemma_reads_join(items, i, seq![Token::Number] + seq![Token::DoubleDot], seq![Token::Number]);
            assert(seq![Token::Number] + seq![Token::DoubleDot] + seq![Token::Number] =~= range_tokens(true));
            true
        } else {
            assert(state_at(items, i).token == Token::Id && p.1 == seq![Symbol::Term(Token::Id)]) by {
                reveal(production);
            }
            lemma_seq_one_ends(items, i, p.1, j);
            lemma_terminal_inv(items, i, Token::Id, Token::Id);
            false
        }
    } else {
        false
    }
}

/// What parses as `D` is ranges separated by commas and followed by a closing
/// bracket, up to the bracket.
pub proof fn lemma_ranges_sound(items: Seq<LexItem>, i: int) -> (rs: Seq<bool>)
    requires
        0 <= i < items.len(),
        ends_with_eof(items),
    ensures
        parse_nt(items, i, NonTerminal::D) matches Ok((_, j)) ==> {
            &&& rs.len() >= 1
            &&& reads(items, i, ranges_tokens(rs))
            &&& j == i + ranges_tokens(rs).len()
            &&& token_at(items, j) == Token::CloseSBracket
        },
    decreases items.len() - i,
{
    let p = lemma_nt_inv(items, i, NonTerminal::D);
    if let Ok((_, j)) = parse_nt(items, i, NonTerminal::D) {
        let d_syms = seq![Symbol::Nonterm(NonTerminal::R), Symbol::Nonterm(NonTerminal::DDoublePrime)];
        assert(p.1 == d_syms) by {
            reveal(production);
        }
        let r = lemma_seq_split(items, i, d_syms);
        let b = lemma_range_sound(items, i);
        let first = range_tokens(b);
        assert(items[r] is Tok);
        let dd = seq![Symbol::Nonterm(NonTerminal::DDoublePrime)];
        assert(d_syms.drop_first() =~= dd);
        lemma_seq_one_ends(items, r, dd, j);
        let q = lemma_nt_inv(items, r, NonTerminal::DDoublePrime);
        if state_at(items, r).token == Token::CloseSBracket {
            assert(q.1 == seq![Symbol::Term(Token::Epsilon)]) by {
                reveal(production);
            }
            assert(j == r);
            let rs = seq![b];
            assert(ranges_tokens(rs) == first);
            rs
        } else {
            assert(state_at(items, r).token == Token::Comma && q.1 == seq![Symbol::Nonterm(NonTerminal::DPrime)]) by {
                reveal(production);
            }
            lemma_seq_one_ends(items, r, q.1, j);
            let w = lemma_nt_inv(items, r, NonTerminal::DPrime);
            let ds_syms = seq![Symbol::Term(Token::Comma), Symbol::Nonterm(NonTerminal::D), Symbol::Nonterm(NonTerminal::P)];
            assert(w.1 == ds_syms) by {
                reveal(production);
            }
            let r2 = lemma_seq_split(items, r, ds_syms);
            lemma_terminal_inv(items, r, Token::Comma, Token::Comma);
            assert(r2 == r + 1);
            let dp = seq![Symbol::Nonterm(NonTerminal::D), Symbol::Nonterm(NonTerminal::P)];
            assert(ds_syms.drop_first() =~= dp);
            let e = lemma_seq_split(items, r2, dp);
            let rest = lemma_ranges_sound(items, r2);
            let pp = seq![Symbol::Nonterm(NonTerminal::P)];
            assert(dp.drop_first() =~= pp);
            lemma_seq_one_ends(items, e, pp, j);
            let u = lemma_nt_inv(items, e, NonTerminal::P);
            assert(items[e] is Tok);
            assert(u.1 == seq![Symbol::Term(Token::Epsilon)]) by {
                reveal(production);
            }
            assert(j == e);
            let rs = seq![b] + rest;
            assert(rs.drop_first() =~= rest);
            assert(ranges_tokens(rs) == first + seq![Token::Comma] + ranges_tokens(rest));
            lemma_reads_join(items, i, first, seq![Token::Comma]);
            lemma_reads_join(items, i, first + seq![Token::Comma], ranges_tokens(rest));
            rs
        }
    } else {
        seq![true]
    }
}

/// Symbols that start with the terminal `t` and parse from item `i` read `t`
/// there, and the rest parses from the next item to the same end.
pub proof fn lemma_seq_terminal_sound(items: Seq<LexItem>, i: int, syms: Seq<Symbol>, t: Token)
    requires
        0 <= i < items.len(),
        ends_with_eof(items),
        syms.len() >= 2,
        syms[0] == Symbol::Term(t),
        t != Token::Eof,
        t != Token::Epsilon,
    ensures
        parse_seq(items, i, syms) matches Ok((_, k)) ==> reads(items, i, seq![t])
            && ends_at(parse_seq(items, i + 1, syms.drop_first()), k),
{
    let j = lemma_seq_split(items, i, syms);
    lemma_terminal_inv(items, i, t, t);
}

/// The parts of a declaration read one after the other read the declaration.
pub proof fn lemma_declaration_reads(items: Seq<LexItem>, n: nat, rs: Seq<bool>)
    requires
        ({
            let c = (names_tokens(n).len() + 1) as int;
            let b = c + 3 + ranges_tokens(rs).len();
            &&& reads(items, 0, seq![Token::Var])
            &&& reads(items, 1, names_tokens(n))
            &&& reads(items, c, seq![Token::Colon])
            &&& reads(items, c + 1, seq![Token::Array])
            &&& reads(items, c + 2, seq![Token::OpenSBracket])
            &&& reads(items, c + 3, ranges_tokens(rs))
            &&& reads(items, b, seq![Token::CloseSBracket])
            &&& reads(items, b + 1, seq![Token::Of])
            &&& reads(items, b + 2, seq![Token::Id])
            &&& reads(items, b + 3, seq![Token::Semicolon])
        }),
    ensures
        reads(items, 0, declaration_tokens(n, rs)),
{
    let names = names_tokens(n);
    let ranges = ranges_tokens(rs);
    let c: int = (names.len() + 1) as int;
    let b: int = c + 3 + ranges.len();
    let a1 = seq![Token::Var] + names;
    lemma_reads_join(items, 0, seq![Token::Var], names);
    let a2 = a1 + seq![Token::Colon];
    lemma_reads_join(items, 0, a1, seq![Token::Colon]);
    let a3 = a2 + seq![Token::Array];
    lemma_reads_join(items, 0, a2, seq![Token::Array]);
    let a4 = a3 + seq![Token::OpenSBracket];
    lemma_reads_join(items, 0, a3, seq![Token::OpenSBracket]);
    let a5 = a4 + ranges;
    lemma_reads_join(items, 0, a4, ranges);
    let a6 = a5 + seq![Token::CloseSBracket];
    lemma_reads_join(items, 0, a5, seq![Token::CloseSBracket]);
    let a7 = a6 + seq![Token::Of];
    lemma_reads_join(items, 0, a6, seq![Token::Of]);
    let a8 = a7 + seq![Token::Id];
    lemma_reads_join(items, 0, a7, seq![Token::Id]);
    let a9 = a8 + seq![Token::Semicolon];
    lemma_reads_join(items, 0, a8, seq![Token::Semicolon]);
    assert(a9 =~= declaration_tokens(n, rs));
}

/// What parses as `S` from the first item is a declaration, up to the item
/// after its semicolon.
#[verifier::rlimit(60)]
pub proof fn lemma_declaration_sound(items: Seq<LexItem>) -> (d: (nat, Seq<bool>))
    requires
        ends_with_eof(items),
    ensures
        parse_nt(items, 0, NonTerminal::S) matches Ok((_, j)) ==> {
            &&& d.0 >= 1
            &&& d.1.len() >= 1
            &&& reads(items, 0, declaration_tokens(d.0, d.1))
            &&& j == declaration_tokens(d.0, d.1).len()
        },
{
    let p = lemma_nt_inv(items, 0, NonTerminal::S);
    if let Ok((_, j)) = parse_nt(items, 0, NonTerminal::S) {
        let s0 = s_symbols();
        assert(p.1 == s0) by {
            reveal(production);
        }
        lemma_seq_terminal_sound(items, 0, s0, Token::Var);
        let s1 = s0.drop_first();
        assert(s1[0] == Symbol::Nonterm(NonTerminal::X));
        let c = lemma_seq_split(items, 1, s1);
        let n = lemma_names_sound(items, 1);
        let s2 = s1.drop_first();
        assert(s2[0] == Symbol::Term(Token::Colon));
        lemma_seq_terminal_sound(items, c, s2, Token::Colon);
        let s3 = s2.drop_first();
        assert(s3[0] == Symbol::Term(Token::Array));
        lemma_seq_terminal_sound(items, c + 1, s3, Token::Array);
        let s4 = s3.drop_first();
        assert(s4[0] == Symbol::Term(Token::OpenSBracket));
        lemma_seq_terminal_sound(items, c + 2, s4, Token::OpenSBracket);
        let s5 = s4.drop_first();
        assert(s5[0] == Symbol::Nonterm(NonTerminal::D));
        let b = lemma_seq_split(items, c + 3, s5);
        let rs = lemma_ranges_sound(items, c + 3);
        let s6 = s5.drop_first();
        assert(s6[0] == Symbol::Term(Token::CloseSBracket));
        lemma_seq_terminal_sound(items, b, s6, Token::CloseSBracket);
        let s7 = s6.drop_first();
        assert(s7[0] == Symbol::Term(Token::Of));
        lemma_seq_terminal_sound(items, b + 1, s7, Token::Of);
        let s8 = s7.drop_first();
        assert(s8[0] == Symbol::Nonterm(NonTerminal::T));
        let e = lemma_seq_split(items, b + 2, s8);
        let t = lemma_nt_inv(items, b + 2, NonTerminal::T);
        assert(t.1 == seq![Symbol::Term(Token::Id)]) by {
            reveal(production);
        }
        lemma_seq_one_ends(items, b + 2, t.1, e);
        lemma_terminal_inv(items, b + 2, Token::Id, Token::Id);
        let s9 = s8.drop_first();
        assert(s9 =~= seq![Symbol::Term(Token::Semicolon)]);
        lemma_seq_one_ends(items, b + 3, s9, j);
        lemma_terminal_inv(items, b + 3, Token::Semicolon, Token::Semicolon);
        lemma_declaration_reads(items, n, rs);
        (n, rs)
    } else {
        (1, seq![true])
    }
}

/// The lexer, run on `input` from `st`, yields the tokens of a declaration
/// `var id {, id} : array [ range {, range} ] of id ;` and then one more token
/// rather than an error.
pub open spec fn reads_declaration(input: Seq<u8>, st: LexState) -> bool {
    exists|n: nat, rs: Seq<bool>| n >= 1 && rs.len() >= 1
        && #[trigger] reads(tokens_from(input, st), 0, declaration_tokens(n, rs))
}

/// The parser accepts exactly the declarations: parsing `input` from `st`
/// succeeds if and only if the lexer, run from there, yields the tokens of a
/// declaration and then a further token rather than an error. Which token
/// that is, and what follows it, makes no difference.
pub proof fn lemma_accepts_declarations(input: Seq<u8>, st: LexState)
    requires
        st.idx <= input.len(),
    ensures
        parse_from(input, st) is Ok <==> reads_declaration(input, st),
{
    let items = tokens_from(input, st);
    lemma_tokens_linked(input, st);
    assert(ends_with_eof(items));
    if reads_declaration(input, st) {
        let (n, rs) = choose|n: nat, rs: Seq<bool>| n >= 1 && rs.len() >= 1
            && #[trigger] reads(items, 0, declaration_tokens(n, rs));
        lemma_declaration_complete(items, n, rs);
        assert(items[0] is Tok);
    }
    if parse_from(input, st) is Ok {
        assert(items[0] is Tok);
        let d = lemma_declaration_sound(items);
        assert(reads(items, 0, declaration_tokens(d.0, d.1)));
    }
}

/// After a declaration is parsed, the lexer stands at the token that follows
/// its semicolon: the only token after the declaration that the parser reads.
pub proof fn lemma_parse_ends_after_declaration(input: Seq<u8>, st: LexState, n: nat, rs: Seq<bool>)
    requires
        st.idx <= input.len(),
        n >= 1,
        rs.len() >= 1,
        reads(tokens_from(input, st), 0, declaration_tokens(n, rs)),
    ensures
        parse_end(input, st) == state_at(tokens_from(input, st), declaration_tokens(n, rs).len() as int),
{
    let items = tokens_from(input, st);
    lemma_declaration_complete(items, n, rs);
    assert(items[0] is Tok);
    assert(items[declaration_tokens(n, rs).len() as int] is Tok);
}

/// Parsing a byte string reads it from its first byte on, as a fresh lexer
/// does, however long it is: `parse_bytes` accepts `input` exactly when the
/// tokens of all of `input`, lexed from the start, begin with a declaration
/// followed by a further token.
pub proof fn lemma_parse_bytes_accepts_declarations(input: Seq<u8>)
    ensures
        parse_bytes(input) is Ok <==> reads_declaration(input, initial_state()),
{
    lemma_accepts_declarations(input, initial_state());
}

} // verus!
