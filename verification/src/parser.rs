//! The recursive-descent parser of array declarations.
use vstd::prelude::*;
use vstd::string::StringSliceAdditionalSpecFns;

use crate::grammar::{
    LexItem, NonTerminal, Symbol, at_token, lemma_parse_nt_unfold, lemma_production_shape,
    lemma_seq_progress, lemma_symbol_progress, lemma_tokens_linked, parse_bytes, parse_end,
    parse_from, parse_nt, parse_seq, parse_symbol, parse_terminal, production, rank_nt, rank_symbol,
    rank_symbols, state_at, stop_state, symbol_consumes, tokens_from, yields,
};
use crate::lexer::Lexer;
use crate::node::{Node, SNode, nodes_view};
use crate::parse_error::{ErrorView, ParseError};
use crate::token::Token;

verus! {

/// A parser reading tokens from a lexer.
pub struct Parser<'a> {
    pub lexer: Lexer<'a>,
}

/// Parses `s` as a declaration.
pub fn parse_string(s: &str) -> (r: Result<Node, ParseError>)
    requires
        s.spec_bytes().len() < u32::MAX,
    ensures
        result_view(r) == parse_bytes(s.spec_bytes()),
{
    Parser::parse_file(s.as_bytes())
}

/// The parser stands at item `i` of the lexer's results `items`.
pub open spec fn parser_at(p: &Parser, items: Seq<LexItem>, i: int) -> bool {
    &&& p.lexer.wf()
    &&& at_token(p.lexer.input(), items, i)
    &&& items[i] == LexItem::Tok(p.lexer.state())
}

/// The parser `p` and the result `r` are what the specification `expected`
/// says: the tree, with the parser at the item after it; or the error, with
/// the lexer in its state at the item where the error arose.
pub open spec fn agrees(p: &Parser, items: Seq<LexItem>, r: Result<Node, ParseError>, expected: Result<(SNode, int), (ErrorView, int)>) -> bool {
    match expected {
        Ok((tree, j)) => r matches Ok(n) && n@ == tree && parser_at(p, items, j),
        Err((e, k)) => r matches Err(err) && err@ == e && p.lexer.state() == stop_state(items, k),
    }
}

/// The subtrees of `kids` put in front of the subtrees of a parse result.
pub open spec fn prepend_nodes(kids: Seq<SNode>, r: Result<(Seq<SNode>, int), (ErrorView, int)>) -> Result<(Seq<SNode>, int), (ErrorView, int)> {
    match r {
        Ok((ns, k)) => Ok((kids + ns, k)),
        Err(e) => Err(e),
    }
}

/// The mathematical value of a parse result.
pub open spec fn result_view(r: Result<Node, ParseError>) -> Result<SNode, ErrorView> {
    match r {
        Ok(n) => Ok(n@),
        Err(e) => Err(e@),
    }
}

impl<'a> Parser<'a> {
    /// A parser reading from `lexer`.
    pub fn new(lexer: Lexer<'a>) -> (p: Parser<'a>)
        ensures
            p.lexer == lexer,
    {
        Parser { lexer }
    }

    /// Parses the whole of `reader` as a declaration.
    pub fn parse_file(reader: &'a [u8]) -> (r: Result<Node, ParseError>)
        requires
            reader@.len() < u32::MAX,
        ensures
            result_view(r) == parse_bytes(reader@),
    {
        Parser::new(Lexer::new(reader)).parse()
    }

    /// Reads the first token and parses a declaration from there. The lexer is
    /// left at the token after the declaration, or where the error arose.
    pub fn parse(&mut self) -> (r: Result<Node, ParseError>)
        requires
            old(self).lexer.wf(),
        ensures
            final(self).lexer.wf(),
            final(self).lexer.input() == old(self).lexer.input(),
            result_view(r) == parse_from(old(self).lexer.input(), old(self).lexer.state()),
            final(self).lexer.state() == parse_end(old(self).lexer.input(), old(self).lexer.state()),
    {
        let ghost input = self.lexer.input();
        let ghost items = tokens_from(input, self.lexer.state());
        proof {
            lemma_tokens_linked(input, self.lexer.state());
        }
        match self.lexer.next() {
            Ok(_) => {},
            Err(e) => return Err(e),
        }
        let r = self.s(Ghost(items), Ghost(0));
        r
    }

    /// Matches the terminal `token` and moves past it; the leaf shows `shown`
    /// unless it is an identifier or a number.
    fn skip(&mut self, token: Token, shown: Token, Ghost(items): Ghost<Seq<LexItem>>, Ghost(i): Ghost<int>) -> (r: Result<Node, ParseError>)
        requires
            parser_at(old(self), items, i),
        ensures
            final(self).lexer.wf(),
            final(self).lexer.input() == old(self).lexer.input(),
            agrees(final(self), items, r, parse_terminal(items, i, token, shown)),
            old(self).lexer.token != token && token != Token::Epsilon ==> final(self).lexer == old(self).lexer,
    {
        if self.lexer.token != token && token != Token::Epsilon {
            return Err(ParseError::unexpected_token(&self.lexer, &[token]));
        }
        let res_name = if (token == Token::Id || token == Token::Number) && !self.lexer.last_id.as_str().is_empty() {
            self.lexer.last_id.clone()
        } else {
            shown.to_string()
        };
        let res = Node { name: res_name, children: Vec::new(), is_term: true };
        assert(nodes_view(res.children@) =~= Seq::<SNode>::empty());
        if token != Token::Epsilon {
            proof {
                if i + 1 < items.len() {
                    assert(items[i] matches LexItem::Tok(st) && st.token != Token::Eof
                        && yields(self.lexer.input(), st, items[i + 1]));
                }
            }
            match self.lexer.next() {
                Ok(_) => {},
                Err(e) => return Err(e),
            }
            proof {
                if i + 1 < items.len() {
                    assert(items[i + 1] is Tok);
                    assert(at_token(self.lexer.input(), items, i + 1));
                }
            }
        }
        Ok(res)
    }

    /// Parses one symbol at item `i`.
    fn symbol(&mut self, sym: Symbol, Ghost(items): Ghost<Seq<LexItem>>, Ghost(i): Ghost<int>) -> (r: Result<Node, ParseError>)
        requires
            parser_at(old(self), items, i),
        ensures
            final(self).lexer.wf(),
            final(self).lexer.input() == old(self).lexer.input(),
            agrees(final(self), items, r, parse_symbol(items, i, sym)),
        decreases items.len() - i, 4 * rank_symbol(sym),
    {
        match sym {
            Symbol::Term(t) => self.skip(t, t, Ghost(items), Ghost(i)),
            Symbol::TermShownAs(t, shown) => self.skip(t, shown, Ghost(items), Ghost(i)),
            Symbol::Leaf(t) => {
                let n = Node { name: t.to_string(), children: Vec::new(), is_term: true };
                assert(nodes_view(n.children@) =~= Seq::<SNode>::empty());
                Ok(n)
            },
            Symbol::Nonterm(nt) => match nt {
                NonTerminal::S => self.s(Ghost(items), Ghost(i)),
                NonTerminal::T => self.t(Ghost(items), Ghost(i)),
                NonTerminal::D => self.d(Ghost(items), Ghost(i)),
                NonTerminal::DPrime => self.ds(Ghost(items), Ghost(i)),
                NonTerminal::DDoublePrime => self.dss(Ghost(items), Ghost(i)),
                NonTerminal::P => self.p(Ghost(items), Ghost(i)),
                NonTerminal::R => self.r(Ghost(items), Ghost(i)),
                NonTerminal::N => self.n(Ghost(items), Ghost(i)),
                NonTerminal::X => self.x(Ghost(items), Ghost(i)),
                NonTerminal::XPrime => self.xs(Ghost(items), Ghost(i)),
                NonTerminal::XDoublePrime => self.xss(Ghost(items), Ghost(i)),
                NonTerminal::Y => self.y(Ghost(items), Ghost(i)),
            },
        }
    }

    /// Parses the symbols `syms` one after the other from item `i`.
    fn sequence(&mut self, syms: &[Symbol], Ghost(items): Ghost<Seq<LexItem>>, Ghost(i): Ghost<int>) -> (r: Result<Vec<Node>, ParseError>)
        requires
            parser_at(old(self), items, i),
            syms@.len() > 0 ==> !(syms@[0] is Leaf),
            forall|k: int| 0 <= k < syms@.len() - 1 ==> symbol_consumes(#[trigger] syms@[k]) || syms@[k] is Leaf,
        ensures
            final(self).lexer.wf(),
            final(self).lexer.input() == old(self).lexer.input(),
            match parse_seq(items, i, syms@) {
                Ok((ns, j)) => r matches Ok(kids) && nodes_view(kids@) == ns && parser_at(final(self), items, j),
                Err((e, k)) => r matches Err(err) && err@ == e && final(self).lexer.state() == stop_state(items, k),
            },
        decreases items.len() - i, 4 * rank_symbols(syms@),
    {
        let ghost input = self.lexer.input();
        let mut kids: Vec<Node> = Vec::new();
        let ghost mut cur: int = i;
        let mut k: usize = 0;
        assert(syms@.skip(0) =~= syms@);
        assert(nodes_view(kids@) + Seq::<SNode>::empty() =~= Seq::<SNode>::empty());
        while k < syms.len()
            invariant
                k <= syms@.len(),
                parser_at(self, items, cur),
                self.lexer.input() == input,
                i <= cur,
                0 < k < syms@.len() ==> i < cur,
                k == 0 ==> cur == i,
                input == old(self).lexer.input(),
                syms@.len() > 0 ==> !(syms@[0] is Leaf),
                forall|m: int| 0 <= m < syms@.len() - 1 ==> symbol_consumes(#[trigger] syms@[m]) || syms@[m] is Leaf,
                parse_seq(items, i, syms@) == prepend_nodes(nodes_view(kids@), parse_seq(items, cur, syms@.skip(k as int))),
            decreases syms@.len() - k,
        {
            let ghost rest = syms@.skip(k as int);
            assert(rest[0] == syms@[k as int]);
            proof {
                lemma_symbol_progress(input, items, cur, syms@[k as int]);
            }
            let n = match self.symbol(syms[k], Ghost(items), Ghost(cur)) {
                Ok(n) => n,
                Err(e) => {
                    return Err(e);
                },
            };
            let ghost j = match parse_symbol(items, cur, syms@[k as int]) {
                Ok((_, j)) => j,
                Err(_) => 0,
            };
            proof {
                if k + 1 < syms@.len() {
                    assert(symbol_consumes(syms@[k as int]) || syms@[k as int] is Leaf);
                    assert(rest.drop_first() =~= syms@.skip(k as int + 1));
                } else {
                    assert(syms@.skip(k as int + 1) =~= Seq::<Symbol>::empty());
                }
            }
            let ghost old_kids = nodes_view(kids@);
            kids.push(n);
            assert(nodes_view(kids@) =~= old_kids.push(n@));
            assert(old_kids + seq![n@] =~= nodes_view(kids@));
            proof {
                match parse_seq(items, j, syms@.skip(k as int + 1)) {
                    Ok((ns, m)) => {
                        assert(old_kids + (seq![n@] + ns) =~= nodes_view(kids@) + ns);
                    },
                    Err(_) => {},
                }
                cur = j;
            }
            k = k + 1;
        }
        assert(nodes_view(kids@) + Seq::<SNode>::empty() =~= nodes_view(kids@));
        Ok(kids)
    }

    /// The node labelled `label` over the subtrees parsed from `syms` at item `i`.
    fn build(&mut self, label: &str, syms: &[Symbol], Ghost(items): Ghost<Seq<LexItem>>, Ghost(i): Ghost<int>, Ghost(nt): Ghost<NonTerminal>) -> (r: Result<Node, ParseError>)
        requires
            parser_at(old(self), items, i),
            production(nt, state_at(items, i).token) matches Ok((l, ss)) && l == label@ && ss =~= syms@,
        ensures
            final(self).lexer.wf(),
            final(self).lexer.input() == old(self).lexer.input(),
            agrees(final(self), items, r, parse_nt(items, i, nt)),
        decreases items.len() - i, 4 * rank_nt(nt) + 2,
    {
        proof {
            lemma_production_shape(nt, state_at(items, i).token);
            assert(production(nt, state_at(items, i).token) == Ok::<(Seq<char>, Seq<Symbol>), Seq<Token>>((label@, syms@)));
            lemma_parse_nt_unfold(items, i, nt, label@, syms@);
        }
        match self.sequence(syms, Ghost(items), Ghost(i)) {
            Ok(children) => Ok(Node::new(label, children)),
            Err(e) => Err(e),
        }
    }

    /// Parses `S -> var X : array [ D ] of T ;`.
    fn s(&mut self, Ghost(items): Ghost<Seq<LexItem>>, Ghost(i): Ghost<int>) -> (r: Result<Node, ParseError>)
        requires
            parser_at(old(self), items, i),
        ensures
            final(self).lexer.wf(),
            final(self).lexer.input() == old(self).lexer.input(),
            agrees(final(self), items, r, parse_nt(items, i, NonTerminal::S)),
            production(NonTerminal::S, old(self).lexer.token) is Err ==> final(self).lexer == old(self).lexer,
        decreases items.len() - i, 4 * rank_nt(NonTerminal::S) + 3,
    {
        proof {
            reveal(production);
        }
        match self.lexer.token {
            Token::Var => self.build(
                "S",
                &[
                    Symbol::Term(Token::Var),
                    Symbol::Nonterm(NonTerminal::X),
                    Symbol::Term(Token::Colon),
                    Symbol::Term(Token::Array),
                    Symbol::Term(Token::OpenSBracket),
                    Symbol::Nonterm(NonTerminal::D),
                    Symbol::Term(Token::CloseSBracket),
                    Symbol::Term(Token::Of),
                    Symbol::Nonterm(NonTerminal::T),
                    Symbol::Term(Token::Semicolon),
                ],
                Ghost(items), Ghost(i), Ghost(NonTerminal::S),
            ),
            _ => Err(ParseError::unexpected_token(&self.lexer, &[Token::Var])),
        }
    }

    /// Parses `T -> id`.
    fn t(&mut self, Ghost(items): Ghost<Seq<LexItem>>, Ghost(i): Ghost<int>) -> (r: Result<Node, ParseError>)
        requires
            parser_at(old(self), items, i),
        ensures
            final(self).lexer.wf(),
            final(self).lexer.input() == old(self).lexer.input(),
            agrees(final(self), items, r, parse_nt(items, i, NonTerminal::T)),
        decreases items.len() - i, 4 * rank_nt(NonTerminal::T) + 3,
    {
        proof {
            reveal(production);
        }
        self.build("T", &[Symbol::Term(Token::Id)], Ghost(items), Ghost(i), Ghost(NonTerminal::T))
    }

    /// Parses `D -> R D''`.
    fn d(&mut self, Ghost(items): Ghost<Seq<LexItem>>, Ghost(i): Ghost<int>) -> (r: Result<Node, ParseError>)
        requires
            parser_at(old(self), items, i),
        ensures
            final(self).lexer.wf(),
            final(self).lexer.input() == old(self).lexer.input(),
            agrees(final(self), items, r, parse_nt(items, i, NonTerminal::D)),
        decreases items.len() - i, 4 * rank_nt(NonTerminal::D) + 3,
    {
        proof {
            reveal(production);
        }
        self.build(
            "D",
            &[
                Symbol::Nonterm(NonTerminal::R),
                Symbol::Nonterm(NonTerminal::DDoublePrime),
            ],
            Ghost(items), Ghost(i), Ghost(NonTerminal::D),
        )
    }

    /// Parses `D' -> , D P`.
    fn ds(&mut self, Ghost(items): Ghost<Seq<LexItem>>, Ghost(i): Ghost<int>) -> (r: Result<Node, ParseError>)
        requires
            parser_at(old(self), items, i),
        ensures
            final(self).lexer.wf(),
            final(self).lexer.input() == old(self).lexer.input(),
            agrees(final(self), items, r, parse_nt(items, i, NonTerminal::DPrime)),
        decreases items.len() - i, 4 * rank_nt(NonTerminal::DPrime) + 3,
    {
        proof {
            reveal(production);
        }
        self.build(
            "D'",
            &[
                Symbol::Term(Token::Comma),
                Symbol::Nonterm(NonTerminal::D),
                Symbol::Nonterm(NonTerminal::P),
            ],
            Ghost(items), Ghost(i), Ghost(NonTerminal::DPrime),
        )
    }

    /// Parses `D'' -> D' | eps`.
    fn dss(&mut self, Ghost(items): Ghost<Seq<LexItem>>, Ghost(i): Ghost<int>) -> (r: Result<Node, ParseError>)
        requires
            parser_at(old(self), items, i),
        ensures
            final(self).lexer.wf(),
            final(self).lexer.input() == old(self).lexer.input(),
            agrees(final(self), items, r, parse_nt(items, i, NonTerminal::DDoublePrime)),
            production(NonTerminal::DDoublePrime, old(self).lexer.token) is Err ==> final(self).lexer == old(self).lexer,
        decreases items.len() - i, 4 * rank_nt(NonTerminal::DDoublePrime) + 3,
    {
        proof {
            reveal(production);
        }
        match self.lexer.token {
            Token::Comma => self.build(
                "D''",
                &[
                    Symbol::Nonterm(NonTerminal::DPrime),
                ],
                Ghost(items), Ghost(i), Ghost(NonTerminal::DDoublePrime),
            ),
            Token::CloseSBracket => self.build(
                "D''",
                &[
                    Symbol::Term(Token::Epsilon),
                ],
                Ghost(items), Ghost(i), Ghost(NonTerminal::DDoublePrime),
            ),
            _ => Err(ParseError::unexpected_token(&self.lexer, &[Token::Comma, Token::CloseSBracket])),
        }
    }

    /// Parses `P -> D' | eps`.
    fn p(&mut self, Ghost(items): Ghost<Seq<LexItem>>, Ghost(i): Ghost<int>) -> (r: Result<Node, ParseError>)
        requires
            parser_at(old(self), items, i),
        ensures
            final(self).lexer.wf(),
            final(self).lexer.input() == old(self).lexer.input(),
            agrees(final(self), items, r, parse_nt(items, i, NonTerminal::P)),
            production(NonTerminal::P, old(self).lexer.token) is Err ==> final(self).lexer == old(self).lexer,
        decreases items.len() - i, 4 * rank_nt(NonTerminal::P) + 3,
    {
        proof {
            reveal(production);
        }
        match self.lexer.token {
            Token::Comma => self.build(
                "P",
                &[
                    Symbol::Nonterm(NonTerminal::DPrime),
                ],
                Ghost(items), Ghost(i), Ghost(NonTerminal::P),
            ),
            Token::CloseSBracket => self.build(
                "P",
                &[
                    Symbol::Term(Token::Epsilon),
                ],
                Ghost(items), Ghost(i), Ghost(NonTerminal::P),
            ),
            _ => Err(ParseError::unexpected_token(&self.lexer, &[Token::Comma, Token::CloseSBracket])),
        }
    }

    /// Parses `R -> N .. N | id`; the node of the second is labelled `T`, and the
    /// range separator `..` is shown as two leaves `.`.
    fn r(&mut self, Ghost(items): Ghost<Seq<LexItem>>, Ghost(i): Ghost<int>) -> (r: Result<Node, ParseError>)
        requires
            parser_at(old(self), items, i),
        ensures
            final(self).lexer.wf(),
            final(self).lexer.input() == old(self).lexer.input(),
            agrees(final(self), items, r, parse_nt(items, i, NonTerminal::R)),
            production(NonTerminal::R, old(self).lexer.token) is Err ==> final(self).lexer == old(self).lexer,
        decreases items.len() - i, 4 * rank_nt(NonTerminal::R) + 3,
    {
        proof {
            reveal(production);
        }
        match self.lexer.token {
            Token::Number => self.build(
                "R",
                &[
                    Symbol::Nonterm(NonTerminal::N),
                    Symbol::TermShownAs(Token::DoubleDot, Token::Dot),
                    Symbol::Leaf(Token::Dot),
                    Symbol::Nonterm(NonTerminal::N),
                ],
                Ghost(items), Ghost(i), Ghost(NonTerminal::R),
            ),
            Token::Id => self.build(
                "T",
                &[
                    Symbol::Term(Token::Id),
                ],
                Ghost(items), Ghost(i), Ghost(NonTerminal::R),
            ),
            _ => Err(ParseError::unexpected_token(&self.lexer, &[Token::Number, Token::Id])),
        }
    }

    /// Parses `N -> number`.
    fn n(&mut self, Ghost(items): Ghost<Seq<LexItem>>, Ghost(i): Ghost<int>) -> (r: Result<Node, ParseError>)
        requires
            parser_at(old(self), items, i),
        ensures
            final(self).lexer.wf(),
            final(self).lexer.input() == old(self).lexer.input(),
            agrees(final(self), items, r, parse_nt(items, i, NonTerminal::N)),
        decreases items.len() - i, 4 * rank_nt(NonTerminal::N) + 3,
    {
        proof {
            reveal(production);
        }
        self.build(
            "N",
            &[
                Symbol::Term(Token::Number),
            ],
            Ghost(items), Ghost(i), Ghost(NonTerminal::N),
        )
    }

    /// Parses `X -> id X''`.
    fn x(&mut self, Ghost(items): Ghost<Seq<LexItem>>, Ghost(i): Ghost<int>) -> (r: Result<Node, ParseError>)
        requires
            parser_at(old(self), items, i),
        ensures
            final(self).lexer.wf(),
            final(self).lexer.input() == old(self).lexer.input(),
            agrees(final(self), items, r, parse_nt(items, i, NonTerminal::X)),
        decreases items.len() - i, 4 * rank_nt(NonTerminal::X) + 3,
    {
        proof {
            reveal(production);
        }
        self.build(
            "X",
            &[
                Symbol::Term(Token::Id),
                Symbol::Nonterm(NonTerminal::XDoublePrime),
            ],
            Ghost(items), Ghost(i), Ghost(NonTerminal::X),
        )
    }

    /// Parses `X' -> , X Y`.
    fn xs(&mut self, Ghost(items): Ghost<Seq<LexItem>>, Ghost(i): Ghost<int>) -> (r: Result<Node, ParseError>)
        requires
            parser_at(old(self), items, i),
        ensures
            final(self).lexer.wf(),
            final(self).lexer.input() == old(self).lexer.input(),
            agrees(final(self), items, r, parse_nt(items, i, NonTerminal::XPrime)),
        decreases items.len() - i, 4 * rank_nt(NonTerminal::XPrime) + 3,
    {
        proof {
            reveal(production);
        }
        self.build(
            "X'",
            &[
                Symbol::Term(Token::Comma),
                Symbol::Nonterm(NonTerminal::X),
                Symbol::Nonterm(NonTerminal::Y),
            ],
            Ghost(items), Ghost(i), Ghost(NonTerminal::XPrime),
        )
    }

    /// Parses `X'' -> X' | eps`.
    fn xss(&mut self, Ghost(items): Ghost<Seq<LexItem>>, Ghost(i): Ghost<int>) -> (r: Result<Node, ParseError>)
        requires
            parser_at(old(self), items, i),
        ensures
            final(self).lexer.wf(),
            final(self).lexer.input() == old(self).lexer.input(),
            agrees(final(self), items, r, parse_nt(items, i, NonTerminal::XDoublePrime)),
            production(NonTerminal::XDoublePrime, old(self).lexer.token) is Err ==> final(self).lexer == old(self).lexer,
        decreases items.len() - i, 4 * rank_nt(NonTerminal::XDoublePrime) + 3,
    {
        proof {
            reveal(production);
        }
        match self.lexer.token {
            Token::Comma => self.build(
                "X''",
                &[
                    Symbol::Nonterm(NonTerminal::XPrime),
                ],
                Ghost(items), Ghost(i), Ghost(NonTerminal::XDoublePrime),
            ),
            Token::Colon => self.build(
                "X''",
                &[
                    Symbol::Term(Token::Epsilon),
                ],
                Ghost(items), Ghost(i), Ghost(NonTerminal::XDoublePrime),
            ),
            _ => Err(ParseError::unexpected_token(&self.lexer, &[Token::Comma, Token::Colon])),
        }
    }

    /// Parses `Y -> X' | eps`.
    fn y(&mut self, Ghost(items): Ghost<Seq<LexItem>>, Ghost(i): Ghost<int>) -> (r: Result<Node, ParseError>)
        requires
            parser_at(old(self), items, i),
        ensures
            final(self).lexer.wf(),
            final(self).lexer.input() == old(self).lexer.input(),
            agrees(final(self), items, r, parse_nt(items, i, NonTerminal::Y)),
            production(NonTerminal::Y, old(self).lexer.token) is Err ==> final(self).lexer == old(self).lexer,
        decreases items.len() - i, 4 * rank_nt(NonTerminal::Y) + 3,
    {
        proof {
            reveal(production);
        }
        match self.lexer.token {
            Token::Comma => self.build(
                "Y",
                &[
                    Symbol::Nonterm(NonTerminal::XPrime),
                ],
                Ghost(items), Ghost(i), Ghost(NonTerminal::Y),
            ),
            Token::Colon => self.build(
                "Y",
                &[
                    Symbol::Term(Token::Epsilon),
                ],
                Ghost(items), Ghost(i), Ghost(NonTerminal::Y),
            ),
            _ => Err(ParseError::unexpected_token(&self.lexer, &[Token::Comma, Token::Colon])),
        }
    }
}

} // verus!
