//! The lexer: turns the bytes of a declaration into tokens, one at a time.
use vstd::prelude::*;

use crate::parse_error::{ErrorView, ParseError, ParseErrorKind, unknown_terminal_error};
use crate::text::{bytes_to_chars, lemma_bytes_to_chars, push_bytes_as_chars};
use crate::token::Token;

verus! {

/// The state of the lexer as a mathematical value.
///
/// `idx` is the number of input bytes read so far; `position` is the
/// position counter, which each byte read moves on by one; `cur` is the byte
/// under examination (`0` once the input is exhausted); `last_id` is the text
/// of the last identifier or number.
pub struct LexState {
    pub idx: nat,
    pub position: nat,
    pub cur: u8,
    pub token: Token,
    pub last_id: Seq<char>,
}

/// The state of a fresh lexer: nothing read, at position 1, a blank under examination.
pub open spec fn initial_state() -> LexState {
    LexState { idx: 0, position: 1, cur: 32, token: Token::Eof, last_id: Seq::empty() }
}

/// ASCII whitespace: space, tab, line feed, form feed, carriage return.
pub open spec fn is_space(b: u8) -> bool {
    b == 32 || b == 9 || b == 10 || b == 12 || b == 13
}

/// An ASCII decimal digit.
pub open spec fn is_digit(b: u8) -> bool {
    48 <= b <= 57
}

/// An ASCII letter or digit.
pub open spec fn is_alnum(b: u8) -> bool {
    is_digit(b) || (65 <= b <= 90) || (97 <= b <= 122)
}

/// Reading one byte: the next input byte comes under examination and the
/// position moves on by one; or `0` at the end of the input, where the count
/// of bytes read and the position stay.
pub open spec fn read_byte(input: Seq<u8>, st: LexState) -> LexState {
    if st.idx < input.len() {
        LexState {
            idx: st.idx + 1,
            position: st.position + 1,
            cur: input[st.idx as int],
            token: st.token,
            last_id: st.last_id,
        }
    } else {
        LexState { idx: st.idx, position: st.position, cur: 0, token: st.token, last_id: st.last_id }
    }
}

/// How much of the input is left to examine, counting the byte under examination.
pub open spec fn remaining(input: Seq<u8>, st: LexState) -> int {
    input.len() - st.idx + if st.cur == 0 { 0int } else { 1int }
}

/// The state after skipping whitespace.
pub open spec fn skip_spaces(input: Seq<u8>, st: LexState) -> LexState
    decreases remaining(input, st),
{
    if st.idx <= input.len() && is_space(st.cur) {
        skip_spaces(input, read_byte(input, st))
    } else {
        st
    }
}

/// The state after reading a run of letters and digits, and that run.
pub open spec fn scan_word(input: Seq<u8>, st: LexState) -> (LexState, Seq<u8>)
    decreases remaining(input, st),
{
    if st.idx <= input.len() && is_alnum(st.cur) {
        let (end, rest) = scan_word(input, read_byte(input, st));
        (end, seq![st.cur] + rest)
    } else {
        (st, Seq::empty())
    }
}

/// The keyword spelled by a word, if any: `var`, `array` or `of`.
pub open spec fn keyword(w: Seq<u8>) -> Option<Token> {
    if w == seq![118u8, 97u8, 114u8] {
        Some(Token::Var)
    } else if w == seq![97u8, 114u8, 114u8, 97u8, 121u8] {
        Some(Token::Array)
    } else if w == seq![111u8, 102u8] {
        Some(Token::Of)
    } else {
        None
    }
}

/// Every byte of `w` is a decimal digit.
pub open spec fn all_digits(w: Seq<u8>) -> bool {
    forall|i: int| 0 <= i < w.len() ==> is_digit(#[trigger] w[i])
}

/// The value of a string of decimal digits.
pub open spec fn digits_value(w: Seq<u8>) -> nat
    decreases w.len(),
{
    if w.len() == 0 {
        0
    } else {
        digits_value(w.drop_last()) * 10 + (w.last() - 48) as nat
    }
}

/// `w` reads as a number of type `u32`: a non-empty string of digits whose
/// value is at most `u32::MAX`.
pub open spec fn is_u32_number(w: Seq<u8>) -> bool {
    w.len() > 0 && all_digits(w) && digits_value(w) <= u32::MAX
}

/// The token of a punctuation byte, if any.
pub open spec fn punctuation(b: u8) -> Option<Token> {
    if b == 44 {
        Some(Token::Comma)
    } else if b == 59 {
        Some(Token::Semicolon)
    } else if b == 58 {
        Some(Token::Colon)
    } else if b == 91 {
        Some(Token::OpenSBracket)
    } else if b == 93 {
        Some(Token::CloseSBracket)
    } else {
        None
    }
}

/// `st` with its current token replaced by `t`.
pub open spec fn with_token(st: LexState, t: Token) -> LexState {
    LexState { idx: st.idx, position: st.position, cur: st.cur, token: t, last_id: st.last_id }
}

/// One step of the lexer: the state after reading the next token, and the
/// error if the next character starts no token.
///
/// Whitespace is skipped; a run of letters and digits is a keyword, a number
/// (when it reads as a `u32`) or an identifier, and sets `last_id` unless it is
/// a keyword; `..` is a double dot (a single `.` is passed over); a `0` byte or
/// the end of input is the end of file; `, ; : [ ]` are punctuation; anything
/// else is an unknown terminal at the position where it stands.
#[verifier::opaque]
pub open spec fn lex_next(input: Seq<u8>, st: LexState) -> (LexState, Option<ErrorView>) {
    let s0 = skip_spaces(input, st);
    let (s1, w) = scan_word(input, s0);
    if w.len() > 0 {
        match keyword(w) {
            Some(t) => (with_token(s1, t), None),
            None => {
                let t = if is_u32_number(w) { Token::Number } else { Token::Id };
                (LexState { idx: s1.idx, position: s1.position, cur: s1.cur, token: t, last_id: bytes_to_chars(w) }, None)
            },
        }
    } else if s0.cur == 46 && read_byte(input, s0).cur == 46 {
        (with_token(read_byte(input, read_byte(input, s0)), Token::DoubleDot), None)
    } else {
        let s2 = if s0.cur == 46 { read_byte(input, s0) } else { s0 };
        if s2.cur == 0 {
            (with_token(s2, Token::Eof), None)
        } else {
            match punctuation(s2.cur) {
                Some(t) => (with_token(read_byte(input, s2), t), None),
                None => (s2, Some(unknown_terminal_error(s2.cur as char, s2.position))),
            }
        }
    }
}

/// A lexer over a byte string.
///
/// `position` counts from 1 and moves on by one with each byte read; it only
/// numbers positions in messages. Reading goes by `offset`, the number of
/// bytes of `reader` read so far.
pub struct Lexer<'a> {
    pub token: Token,
    pub position: u32,
    pub last_id: String,
    pub reader: &'a [u8],
    pub cur: u8,
    pub offset: usize,
}

fn is_space_byte(b: u8) -> (r: bool)
    ensures
        r == is_space(b),
{
    b == 32 || b == 9 || b == 10 || b == 12 || b == 13
}

fn is_alnum_byte(b: u8) -> (r: bool)
    ensures
        r == is_alnum(b),
{
    (48 <= b && b <= 57) || (65 <= b && b <= 90) || (97 <= b && b <= 122)
}

fn keyword_of(w: &Vec<u8>) -> (r: Option<Token>)
    ensures
        r == keyword(w@),
{
    if w.len() == 3 && w[0] == 118 && w[1] == 97 && w[2] == 114 {
        assert(w@ =~= seq![118u8, 97u8, 114u8]);
        Some(Token::Var)
    } else if w.len() == 5 && w[0] == 97 && w[1] == 114 && w[2] == 114 && w[3] == 97 && w[4] == 121 {
        assert(w@ =~= seq![97u8, 114u8, 114u8, 97u8, 121u8]);
        Some(Token::Array)
    } else if w.len() == 2 && w[0] == 111 && w[1] == 102 {
        assert(w@ =~= seq![111u8, 102u8]);
        Some(Token::Of)
    } else {
        None
    }
}

fn punctuation_of(b: u8) -> (r: Option<Token>)
    ensures
        r == punctuation(b),
{
    if b == 44 {
        Some(Token::Comma)
    } else if b == 59 {
        Some(Token::Semicolon)
    } else if b == 58 {
        Some(Token::Colon)
    } else if b == 91 {
        Some(Token::OpenSBracket)
    } else if b == 93 {
        Some(Token::CloseSBracket)
    } else {
        None
    }
}

impl<'a> Lexer<'a> {
    /// The bytes the lexer reads.
    pub open spec fn input(&self) -> Seq<u8> {
        self.reader@
    }

    /// The lexer's state as a mathematical value.
    pub open spec fn state(&self) -> LexState {
        LexState {
            idx: self.offset as nat,
            position: self.position as nat,
            cur: self.cur,
            token: self.token,
            last_id: self.last_id@,
        }
    }

    /// The lexer reads within its input, and its position counter cannot
    /// overflow while the rest of the input is read.
    pub open spec fn wf(&self) -> bool {
        &&& self.offset <= self.input().len()
        &&& self.position + (self.input().len() - self.offset) <= u32::MAX
    }

    /// A lexer at the start of `reader`.
    pub fn new(reader: &'a [u8]) -> (l: Lexer<'a>)
        requires
            reader@.len() < u32::MAX,
        ensures
            l.wf(),
            l.input() == reader@,
            l.state() == initial_state(),
    {
        Lexer { token: Token::Eof, position: 1, last_id: String::new(), reader, cur: 32, offset: 0 }
    }

    /// Reads the next byte of the input.
    fn read(&mut self) -> (b: u8)
        requires
            old(self).wf(),
        ensures
            final(self).wf(),
            final(self).input() == old(self).input(),
            final(self).state() == read_byte(old(self).input(), old(self).state()),
            b == final(self).state().cur,
    {
        if self.offset < self.reader.len() {
            self.cur = self.reader[self.offset];
            self.offset = self.offset + 1;
            self.position = self.position + 1;
        } else {
            self.cur = 0;
        }
        self.cur
    }

    /// Reads the next token.
    pub fn next(&mut self) -> (r: Result<Token, ParseError>)
        requires
            old(self).wf(),
        ensures
            final(self).wf(),
            final(self).input() == old(self).input(),
            final(self).state() == lex_next(old(self).input(), old(self).state()).0,
            match lex_next(old(self).input(), old(self).state()).1 {
                None => r == Ok::<Token, ParseError>(final(self).token),
                Some(e) => r matches Err(err) && err@ == e,
            },
    {
        reveal(lex_next);
        let ghost input = self.input();
        let ghost st0 = self.state();
        while is_space_byte(self.cur)
            invariant
                self.wf(),
                self.input() == input,
                skip_spaces(input, self.state()) == skip_spaces(input, st0),
            decreases remaining(input, self.state()),
        {
            self.read();
        }
        let ghost s0 = self.state();
        assert(s0 == skip_spaces(input, st0));
        let mut word: Vec<u8> = Vec::new();
        while is_alnum_byte(self.cur)
            invariant
                self.wf(),
                self.input() == input,
                self.token == s0.token,
                self.last_id@ == s0.last_id,
                scan_word(input, s0) == (scan_word(input, self.state()).0, word@ + scan_word(input, self.state()).1),
            decreases remaining(input, self.state()),
        {
            let ghost before = self.state();
            let ghost w0 = word@;
            word.push(self.cur);
            self.read();
            assert(scan_word(input, before).1 == seq![before.cur] + scan_word(input, self.state()).1);
            assert(w0 + scan_word(input, before).1 =~= word@ + scan_word(input, self.state()).1);
        }
        assert(scan_word(input, self.state()).1 =~= Seq::<u8>::empty());
        assert(word@ + Seq::<u8>::empty() =~= word@);
        if word.len() > 0 {
            match keyword_of(&word) {
                Some(t) => {
                    self.token = t;
                    return Ok(self.token);
                },
                None => {
                    let is_number = reads_as_u32(&word);
                    self.token = if is_number { Token::Number } else { Token::Id };
                    let mut id = String::new();
                    push_bytes_as_chars(&mut id, &word);
                    self.last_id = id;
                    return Ok(self.token);
                },
            }
        }
        if self.cur == 46 {
            self.read();
            if self.cur == 46 {
                self.read();
                self.token = Token::DoubleDot;
                return Ok(Token::DoubleDot);
            }
        }
        if self.cur == 0 {
            self.token = Token::Eof;
            return Ok(Token::Eof);
        }
        match punctuation_of(self.cur) {
            Some(t) => {
                self.read();
                self.token = t;
                Ok(self.token)
            },
            None => Err(ParseError::unknown_terminal(self.cur as char, self.position)),
        }
    }
}

/// The value of the first `k` digits never exceeds that of the first `k + m`.
proof fn lemma_digits_value_grows(w: Seq<u8>, k: int, m: int)
    requires
        0 <= k,
        0 <= m,
        k + m <= w.len(),
        all_digits(w),
    ensures
        digits_value(w.take(k)) <= digits_value(w.take(k + m)),
    decreases m,
{
    if m > 0 {
        lemma_digits_value_grows(w, k, m - 1);
        assert(w.take(k + m).drop_last() =~= w.take(k + m - 1));
        assert(is_digit(w[k + m - 1]));
    }
}

/// Whether the word reads as a number of type `u32`.
fn reads_as_u32(w: &Vec<u8>) -> (r: bool)
    ensures
        r == is_u32_number(w@),
{
    if w.len() == 0 {
        return false;
    }
    let mut value: u64 = 0;
    let mut i: usize = 0;
    while i < w.len()
        invariant
            i <= w@.len(),
            forall|j: int| 0 <= j < i ==> is_digit(#[trigger] w@[j]),
            value == digits_value(w@.take(i as int)),
            value <= u32::MAX,
        decreases w@.len() - i,
    {
        let b = w[i];
        if !(48 <= b && b <= 57) {
            return false;
        }
        assert(w@.take(i as int + 1).drop_last() =~= w@.take(i as int));
        let next = value * 10 + (b - 48) as u64;
        if next > 4294967295u64 {
            proof {
                if all_digits(w@) {
                    lemma_digits_value_grows(w@, i as int + 1, w@.len() - i - 1);
                    assert(w@.take(w@.len() as int) =~= w@);
                }
            }
            return false;
        }
        value = next;
        i = i + 1;
    }
    assert(w@.take(w@.len() as int) =~= w@);
    true
}

} // verus!

verus! {

/// Reading a byte keeps the count of bytes read within the input, never adds
/// to what is left, and takes one from it when a byte is under examination.
pub proof fn lemma_read_byte_progress(input: Seq<u8>, st: LexState)
    requires
        st.idx <= input.len(),
    ensures
        read_byte(input, st).idx <= input.len(),
        remaining(input, read_byte(input, st)) <= remaining(input, st),
        st.cur != 0 ==> remaining(input, read_byte(input, st)) < remaining(input, st),
        read_byte(input, st).token == st.token,
        read_byte(input, st).last_id == st.last_id,
{
}

/// Skipping whitespace stays within the input and never adds to what is left.
pub proof fn lemma_skip_spaces_progress(input: Seq<u8>, st: LexState)
    requires
        st.idx <= input.len(),
    ensures
        skip_spaces(input, st).idx <= input.len(),
        remaining(input, skip_spaces(input, st)) <= remaining(input, st),
        !is_space(skip_spaces(input, st).cur),
        skip_spaces(input, st).token == st.token,
        skip_spaces(input, st).last_id == st.last_id,
    decreases remaining(input, st),
{
    if is_space(st.cur) {
        lemma_read_byte_progress(input, st);
        lemma_skip_spaces_progress(input, read_byte(input, st));
    }
}

/// Reading a word stays within the input and takes one from what is left for
/// each byte of the word; the word is made of letters and digits, and the byte
/// after it is not one.
pub proof fn lemma_scan_word_progress(input: Seq<u8>, st: LexState)
    requires
        st.idx <= input.len(),
    ensures
        scan_word(input, st).0.idx <= input.len(),
        remaining(input, scan_word(input, st).0) + scan_word(input, st).1.len() <= remaining(input, st),
        !is_alnum(scan_word(input, st).0.cur),
        scan_word(input, st).0.token == st.token,
        scan_word(input, st).0.last_id == st.last_id,
        scan_word(input, st).1.len() == 0 ==> scan_word(input, st).0 == st,
    decreases remaining(input, st),
{
    if is_alnum(st.cur) {
        lemma_read_byte_progress(input, st);
        lemma_scan_word_progress(input, read_byte(input, st));
    }
}

/// A step of the lexer stays within the input and never adds to what is left;
/// a step that yields a token other than the end of file takes from it.
pub proof fn lemma_lex_next_progress(input: Seq<u8>, st: LexState)
    requires
        st.idx <= input.len(),
    ensures
        lex_next(input, st).0.idx <= input.len(),
        remaining(input, lex_next(input, st).0) <= remaining(input, st),
        lex_next(input, st).1 is None && lex_next(input, st).0.token != Token::Eof
            ==> remaining(input, lex_next(input, st).0) < remaining(input, st),
{
    reveal(lex_next);
    let s0 = skip_spaces(input, st);
    lemma_skip_spaces_progress(input, st);
    lemma_scan_word_progress(input, s0);
    lemma_read_byte_progress(input, s0);
    let s1 = read_byte(input, s0);
    lemma_read_byte_progress(input, s1);
    let s2 = if s0.cur == 46 { s1 } else { s0 };
    lemma_read_byte_progress(input, s2);
}

/// Once the lexer has reached the end of file, a further step changes nothing.
pub proof fn lemma_eof_is_stable(input: Seq<u8>, st: LexState)
    requires
        st.idx <= input.len(),
        lex_next(input, st).1 is None,
        lex_next(input, st).0.token == Token::Eof,
    ensures
        lex_next(input, lex_next(input, st).0) == lex_next(input, st),
{
    reveal(lex_next);
    let s0 = skip_spaces(input, st);
    lemma_skip_spaces_progress(input, st);
    lemma_scan_word_progress(input, s0);
    let e = lex_next(input, st).0;
    assert(e.cur == 0);
    assert(skip_spaces(input, e) == e);
    assert(scan_word(input, e) == (e, Seq::<u8>::empty()));
}


/// The only error the lexer reports is an unknown terminal, a lexer error.
pub proof fn lemma_lex_error_kind(input: Seq<u8>, st: LexState)
    ensures
        lex_next(input, st).1 matches Some(e) ==> e.kind == ParseErrorKind::LexerError,
{
    reveal(lex_next);
}


/// An identifier or a number that the lexer yields comes with its text.
pub proof fn lemma_lex_word_text(input: Seq<u8>, st: LexState)
    ensures
        lex_next(input, st).1 is None && (lex_next(input, st).0.token == Token::Id
            || lex_next(input, st).0.token == Token::Number) ==> lex_next(input, st).0.last_id.len() > 0,
{
    reveal(lex_next);
}

/// A word is the run of letters and digits that starts with the byte under
/// examination and goes on with the input bytes that follow it; the byte
/// after the word is no letter or digit.
pub proof fn lemma_scan_word_shape(input: Seq<u8>, st: LexState)
    requires
        st.idx <= input.len(),
    ensures
        ({
            let (end, w) = scan_word(input, st);
            &&& forall|k: int| 0 <= k < w.len() ==> is_alnum(#[trigger] w[k])
            &&& w.len() > 0 ==> w[0] == st.cur && w.drop_first() == input.subrange(st.idx as int, st.idx + w.len() - 1)
            &&& !is_alnum(end.cur)
        }),
    decreases remaining(input, st),
{
    lemma_scan_word_progress(input, st);
    if is_alnum(st.cur) {
        let next = read_byte(input, st);
        lemma_read_byte_progress(input, st);
        lemma_scan_word_shape(input, next);
        let rest = scan_word(input, next).1;
        let w = scan_word(input, st).1;
        assert(w == seq![st.cur] + rest);
        assert(w.drop_first() =~= rest);
        assert forall|k: int| 0 <= k < w.len() implies is_alnum(#[trigger] w[k]) by {
            if k > 0 {
                assert(w[k] == rest[k - 1]);
            }
        }
        if rest.len() > 0 {
            assert(st.idx < input.len());
            assert(rest[0] == input[st.idx as int]);
            assert forall|k: int| 0 <= k < rest.len() implies #[trigger] rest[k] == input[st.idx + k] by {
                if k > 0 {
                    assert(rest[k] == rest.drop_first()[k - 1]);
                }
            }
            assert(rest =~= input.subrange(st.idx as int, st.idx + w.len() - 1));
        } else {
            assert(rest =~= input.subrange(st.idx as int, st.idx + w.len() - 1));
        }
    }
}

/// The bytes of the keywords `var`, `array` and `of`.
pub open spec fn var_bytes() -> Seq<u8> {
    seq![118u8, 97u8, 114u8]
}

pub open spec fn array_bytes() -> Seq<u8> {
    seq![97u8, 114u8, 114u8, 97u8, 121u8]
}

pub open spec fn of_bytes() -> Seq<u8> {
    seq![111u8, 102u8]
}

/// The word rule of the lexer: where the next token starts with a letter or a
/// digit, the lexer reads the whole word `w` there and yields `var`, `array`
/// or `of` exactly when `w` spells that keyword, leaving the last identifier
/// as it was. Any other word is a number, when it reads as a `u32`, or else
/// an identifier, and its text is `w` itself, byte for character.
pub proof fn lemma_lex_word(input: Seq<u8>, st: LexState)
    requires
        st.idx <= input.len(),
    ensures
        ({
            let w = scan_word(input, skip_spaces(input, st)).1;
            let (next, err) = lex_next(input, st);
            w.len() > 0 ==> {
                &&& err is None
                &&& (next.token == Token::Var <==> w == var_bytes())
                &&& (next.token == Token::Array <==> w == array_bytes())
                &&& (next.token == Token::Of <==> w == of_bytes())
                &&& (next.token == Token::Number <==> is_u32_number(w))
                &&& (next.token == Token::Id <==> w != var_bytes() && w != array_bytes() && w != of_bytes()
                    && !is_u32_number(w))
                &&& (w == var_bytes() || w == array_bytes() || w == of_bytes() ==> next.last_id == st.last_id)
                &&& (next.token == Token::Id || next.token == Token::Number ==> {
                    &&& next.last_id.len() == w.len()
                    &&& forall|k: int| 0 <= k < w.len() ==> #[trigger] next.last_id[k] == w[k] as char
                })
            }
        }),
{
    reveal(lex_next);
    lemma_skip_spaces_progress(input, st);
    lemma_scan_word_progress(input, skip_spaces(input, st));
    let w = scan_word(input, skip_spaces(input, st)).1;
    lemma_bytes_to_chars(w);
    if w.len() > 0 {
        assert(var_bytes().len() == 3 && array_bytes().len() == 5 && of_bytes().len() == 2);
        if w == var_bytes() || w == array_bytes() || w == of_bytes() {
            assert(!is_digit(w[0]));
        }
    }
}

} // verus!
