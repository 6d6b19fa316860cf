use std::rc::Rc;

use vstd::prelude::*;
use vstd::string::*;

use super::token::{Token, is_plain};
use crate::files::ByteRange;
use crate::text::{char_width, chars_of, lemma_utf8_len_mono, lemma_utf8_len_step, rc_clone, str_slice, utf8_len};

verus! {

/// Splits source text into tokens, one call at a time.
#[derive(Debug)]
pub struct Lexer<'a> {
    str: &'a str,
    chars: Rc<Vec<char>>,
    pos: usize,
    byte_pos: usize,
}

/// What can go wrong while reading a token.
#[derive(Clone, Copy, Debug, PartialEq, Eq, Structural)]
pub enum LexError {
    UnexpectedChar(char),
    UnclosedComment,
    UnclosedString,
    NumberError,
}

/// A value together with the byte range it was read from.
pub type Node<T> = (T, ByteRange);

/// `char::is_whitespace`: the chars with the Unicode `White_Space` property.
pub open spec fn is_ws(c: char) -> bool {
    ||| ('\u{9}' <= c && c <= '\u{d}')
    ||| c == ' '
    ||| c == '\u{85}'
    ||| c == '\u{a0}'
    ||| c == '\u{1680}'
    ||| ('\u{2000}' <= c && c <= '\u{200a}')
    ||| c == '\u{2028}'
    ||| c == '\u{2029}'
    ||| c == '\u{202f}'
    ||| c == '\u{205f}'
    ||| c == '\u{3000}'
}

pub open spec fn spec_ident_start(c: char) -> bool {
    ('a' <= c && c <= 'z') || ('A' <= c && c <= 'Z') || c == '_'
}

pub open spec fn spec_ident_continue(c: char) -> bool {
    spec_ident_start(c) || ('0' <= c && c <= '9') || c == '\''
}

pub open spec fn is_digit(c: char) -> bool {
    '0' <= c && c <= '9'
}

/// The first index at or after `i` that does not hold whitespace.
pub open spec fn skip_ws(cs: Seq<char>, i: nat) -> nat
    decreases cs.len() - i,
{
    if i < cs.len() && is_ws(cs[i as int]) {
        skip_ws(cs, i + 1)
    } else {
        i
    }
}

/// The first index at or after `i` that does not continue an identifier.
pub open spec fn ident_end(cs: Seq<char>, i: nat) -> nat
    decreases cs.len() - i,
{
    if i < cs.len() && spec_ident_continue(cs[i as int]) {
        ident_end(cs, i + 1)
    } else {
        i
    }
}

/// The first index at or after `i` that holds neither a digit nor `_`.
pub open spec fn number_end(cs: Seq<char>, i: nat) -> nat
    decreases cs.len() - i,
{
    if i < cs.len() && (is_digit(cs[i as int]) || cs[i as int] == '_') {
        number_end(cs, i + 1)
    } else {
        i
    }
}

/// The first index at or after `i` that holds a newline, or the end.
pub open spec fn line_end(cs: Seq<char>, i: nat) -> nat
    decreases cs.len() - i,
{
    if i < cs.len() && cs[i as int] != '\n' {
        line_end(cs, i + 1)
    } else {
        i
    }
}

/// The index just after the `*/` that closes a block comment whose body
/// continues at `i` (`star`: the char before `i` was a `*` of the body).
pub open spec fn block_comment_end(cs: Seq<char>, i: nat, star: bool) -> Option<nat>
    decreases cs.len() - i,
{
    if i >= cs.len() {
        None
    } else if cs[i as int] == '*' {
        block_comment_end(cs, i + 1, true)
    } else if cs[i as int] == '/' && star {
        Some(i + 1)
    } else {
        block_comment_end(cs, i + 1, false)
    }
}

/// The index just after the `"` that closes a string whose body continues at
/// `i`; a backslash makes the next char part of the body.
pub open spec fn string_end(cs: Seq<char>, i: nat) -> Option<nat>
    decreases cs.len() - i,
{
    if i >= cs.len() {
        None
    } else if cs[i as int] == '"' {
        Some(i + 1)
    } else if cs[i as int] == '\\' {
        if i + 1 >= cs.len() {
            None
        } else {
            string_end(cs, i + 2)
        }
    } else {
        string_end(cs, i + 1)
    }
}

/// What a token read at a given index is: a token without text, a token
/// whose text is the chars `a..b`, or an error.
pub enum Lexeme<'a> {
    Plain(Token<'a>),
    Ident(nat, nat),
    Num(nat, nat),
    Str(nat, nat),
    Comment(nat, nat),
    Error(LexError),
}

/// The keyword spelled by `text`, if any.
pub open spec fn keyword<'a>(text: Seq<char>) -> Option<Token<'a>> {
    if text == seq!['i', 'f'] {
        Some(Token::If)
    } else if text == seq!['t', 'h', 'e', 'n'] {
        Some(Token::Then)
    } else if text == seq!['e', 'l', 's', 'e'] {
        Some(Token::Else)
    } else if text == seq!['l', 'e', 't'] {
        Some(Token::Let)
    } else if text == seq!['i', 'n'] {
        Some(Token::In)
    } else {
        None
    }
}

/// `c` followed by `next` (if any) at index `i`.
pub open spec fn next_is(cs: Seq<char>, i: nat, c: char) -> bool {
    i < cs.len() && cs[i as int] == c
}

/// The token that starts at index `start` (which holds no whitespace) and
/// the index just after it.
pub open spec fn lex_at<'a>(cs: Seq<char>, start: nat) -> (Lexeme<'a>, nat) {
    let n = start + 1;
    if start >= cs.len() {
        (Lexeme::Plain(Token::Eof), start)
    } else {
        let c = cs[start as int];
        if c == '(' { (Lexeme::Plain(Token::LParen), n) }
        else if c == ')' { (Lexeme::Plain(Token::RParen), n) }
        else if c == '{' { (Lexeme::Plain(Token::LBrace), n) }
        else if c == '}' { (Lexeme::Plain(Token::RBrace), n) }
        else if c == '[' { (Lexeme::Plain(Token::LBrack), n) }
        else if c == ']' { (Lexeme::Plain(Token::RBrack), n) }
        else if c == '<' {
            if next_is(cs, n, '|') { (Lexeme::Plain(Token::PipeL), n + 1) }
            else if next_is(cs, n, '=') { (Lexeme::Plain(Token::Lte), n + 1) }
            else { (Lexeme::Plain(Token::Lt), n) }
        } else if c == '>' {
            if next_is(cs, n, '=') { (Lexeme::Plain(Token::Gte), n + 1) }
            else { (Lexeme::Plain(Token::Gt), n) }
        } else if c == '!' {
            if next_is(cs, n, '=') { (Lexeme::Plain(Token::Ne), n + 1) }
            else { (Lexeme::Plain(Token::Bang), n) }
        } else if c == '=' {
            if next_is(cs, n, '=') { (Lexeme::Plain(Token::Eq), n + 1) }
            else { (Lexeme::Plain(Token::Assign), n) }
        } else if c == '+' { (Lexeme::Plain(Token::Plus), n) }
        else if c == '-' {
            if next_is(cs, n, '>') { (Lexeme::Plain(Token::SmallRArrow), n + 1) }
            else { (Lexeme::Plain(Token::Minus), n) }
        } else if c == '*' { (Lexeme::Plain(Token::Star), n) }
        else if c == '/' {
            if next_is(cs, n, '*') {
                match block_comment_end(cs, n + 1, false) {
                    Some(e) => (Lexeme::Comment(n + 1, (e - 2) as nat), e),
                    None => (Lexeme::Error(LexError::UnclosedComment), cs.len()),
                }
            } else {
                (Lexeme::Plain(Token::Slash), n)
            }
        } else if c == '%' { (Lexeme::Plain(Token::Percent), n) }
        else if c == ';' { (Lexeme::Plain(Token::Semicolon), n) }
        else if c == ':' {
            if next_is(cs, n, ':') { (Lexeme::Plain(Token::ColonColon), n + 1) }
            else { (Lexeme::Plain(Token::Colon), n) }
        } else if c == '?' { (Lexeme::Plain(Token::Question), n) }
        else if c == '@' { (Lexeme::Plain(Token::At), n) }
        else if c == '$' { (Lexeme::Plain(Token::Dollar), n) }
        else if c == ',' { (Lexeme::Plain(Token::Comma), n) }
        else if c == '.' {
            if next_is(cs, n, '.') { (Lexeme::Plain(Token::DotDot), n + 1) }
            else { (Lexeme::Plain(Token::Dot), n) }
        } else if c == '|' {
            if next_is(cs, n, '|') { (Lexeme::Plain(Token::Or), n + 1) }
            else if next_is(cs, n, '>') { (Lexeme::Plain(Token::PipeR), n + 1) }
            else { (Lexeme::Plain(Token::Bar), n) }
        } else if c == '&' {
            if next_is(cs, n, '&') { (Lexeme::Plain(Token::And), n + 1) }
            else { (Lexeme::Error(LexError::UnexpectedChar('&')), n) }
        } else if c == '"' {
            match string_end(cs, n) {
                Some(e) => (Lexeme::Str(n, (e - 1) as nat), e),
                None => (Lexeme::Error(LexError::UnclosedString), cs.len()),
            }
        } else if spec_ident_start(c) {
            let e = ident_end(cs, n);
            match keyword(cs.subrange(start as int, e as int)) {
                Some(k) => (Lexeme::Plain(k), e),
                None => (Lexeme::Ident(start, e), e),
            }
        } else if c == '#' {
            let e = line_end(cs, n);
            (Lexeme::Comment(n, e), e)
        } else if is_digit(c) {
            let e = number_end(cs, n);
            (Lexeme::Num(start, e), e)
        } else {
            (Lexeme::Error(LexError::UnexpectedChar(c)), n)
        }
    }
}

/// Whether the result of reading a token agrees with the lexeme.
pub open spec fn lexeme_matches<'a>(lx: Lexeme<'a>, r: Result<Token<'a>, LexError>, cs: Seq<char>) -> bool {
    match lx {
        Lexeme::Plain(t) => r == Ok::<Token<'a>, LexError>(t),
        Lexeme::Ident(a, b) => r matches Ok(Token::Ident(s)) && s@ == cs.subrange(a as int, b as int),
        Lexeme::Num(a, b) => r matches Ok(Token::Num(s)) && s@ == cs.subrange(a as int, b as int),
        Lexeme::Str(a, b) => r matches Ok(Token::String(s)) && s@ == cs.subrange(a as int, b as int),
        Lexeme::Comment(a, b) => r matches Ok(Token::Comment(s)) && s@ == cs.subrange(a as int, b as int),
        Lexeme::Error(e) => r == Err::<Token<'a>, LexError>(e),
    }
}

pub proof fn lemma_skip_ws_bounds(cs: Seq<char>, i: nat)
    requires
        i <= cs.len(),
    ensures
        i <= skip_ws(cs, i) <= cs.len(),
    decreases cs.len() - i,
{
    if i < cs.len() && is_ws(cs[i as int]) {
        lemma_skip_ws_bounds(cs, i + 1);
    }
}

proof fn lemma_ident_end_bounds(cs: Seq<char>, i: nat)
    requires
        i <= cs.len(),
    ensures
        i <= ident_end(cs, i) <= cs.len(),
    decreases cs.len() - i,
{
    if i < cs.len() && spec_ident_continue(cs[i as int]) {
        lemma_ident_end_bounds(cs, i + 1);
    }
}

proof fn lemma_number_end_bounds(cs: Seq<char>, i: nat)
    requires
        i <= cs.len(),
    ensures
        i <= number_end(cs, i) <= cs.len(),
    decreases cs.len() - i,
{
    if i < cs.len() && (is_digit(cs[i as int]) || cs[i as int] == '_') {
        lemma_number_end_bounds(cs, i + 1);
    }
}

proof fn lemma_line_end_bounds(cs: Seq<char>, i: nat)
    requires
        i <= cs.len(),
    ensures
        i <= line_end(cs, i) <= cs.len(),
    decreases cs.len() - i,
{
    if i < cs.len() && cs[i as int] != '\n' {
        lemma_line_end_bounds(cs, i + 1);
    }
}

proof fn lemma_block_comment_end_bounds(cs: Seq<char>, i: nat, star: bool)
    ensures
        block_comment_end(cs, i, star) matches Some(e) ==> i < e <= cs.len(),
    decreases cs.len() - i,
{
    if i < cs.len() {
        if cs[i as int] == '*' {
            lemma_block_comment_end_bounds(cs, i + 1, true);
        } else if cs[i as int] == '/' && star {
        } else {
            lemma_block_comment_end_bounds(cs, i + 1, false);
        }
    }
}

proof fn lemma_string_end_bounds(cs: Seq<char>, i: nat)
    ensures
        string_end(cs, i) matches Some(e) ==> i < e <= cs.len(),
    decreases cs.len() - i,
{
    if i < cs.len() && cs[i as int] != '"' {
        if cs[i as int] == '\\' {
            if i + 1 < cs.len() {
                lemma_string_end_bounds(cs, i + 2);
            }
        } else {
            lemma_string_end_bounds(cs, i + 1);
        }
    }
}

/// A token read before the end of the input covers at least one char and is
/// not `Eof`; at the end of the input the token is `Eof` and covers nothing.
pub proof fn lemma_lex_at_progress(cs: Seq<char>, start: nat)
    requires
        start <= cs.len(),
    ensures
        ({
            let (lx, end) = lex_at(cs, start);
            &&& start < cs.len() ==> start < end <= cs.len() && !(lx matches Lexeme::Plain(Token::Eof))
            &&& start == cs.len() ==> (lx matches Lexeme::Plain(Token::Eof)) && end == start
        }),
{
    if start < cs.len() {
        let n = start + 1;
        lemma_block_comment_end_bounds(cs, n + 1, false);
        lemma_string_end_bounds(cs, n);
        lemma_ident_end_bounds(cs, n);
        lemma_line_end_bounds(cs, n);
        lemma_number_end_bounds(cs, n);
    }
}

pub fn ident_start(c: char) -> (r: bool)
    ensures
        r == spec_ident_start(c),
{
    ('a' <= c && c <= 'z') || ('A' <= c && c <= 'Z') || c == '_'
}

pub fn ident_continue(c: char) -> (r: bool)
    ensures
        r == spec_ident_continue(c),
{
    ident_start(c) || ('0' <= c && c <= '9') || c == '\''
}

fn is_whitespace(c: char) -> (r: bool)
    ensures
        r == is_ws(c),
{
    ('\u{9}' <= c && c <= '\u{d}') || c == ' ' || c == '\u{85}' || c == '\u{a0}'
        || c == '\u{1680}' || ('\u{2000}' <= c && c <= '\u{200a}') || c == '\u{2028}'
        || c == '\u{2029}' || c == '\u{202f}' || c == '\u{205f}' || c == '\u{3000}'
}

impl<'a> Lexer<'a> {
    /// The source text.
    pub closed spec fn source(&self) -> Seq<char> {
        self.str@
    }

    /// The index of the next char to read.
    pub closed spec fn position(&self) -> nat {
        self.pos as nat
    }

    pub closed spec fn wf(&self) -> bool {
        &&& self.chars@ == self.str@
        &&& self.pos <= self.str@.len()
        &&& self.byte_pos == utf8_len(self.str@.take(self.pos as int))
        &&& utf8_len(self.str@) <= usize::MAX
    }

    pub proof fn lemma_position_in_bounds(&self)
        requires
            self.wf(),
        ensures
            self.position() <= self.source().len(),
    {
    }

    pub fn new(str: &'a str) -> (l: Self)
        ensures
            l.wf(),
            l.source() == str@,
            l.position() == 0,
    {
        let bytes = str.as_bytes();
        let _n = bytes.len();
        proof {
            assert(str@.take(0) =~= Seq::<char>::empty());
        }
        Lexer { str, chars: Rc::new(chars_of(str)), pos: 0, byte_pos: 0 }
    }

    /// A copy of this lexer, sharing the source.
    pub fn duplicate(&self) -> (r: Self)
        ensures
            r == *self,
    {
        Lexer { str: self.str, chars: rc_clone(&self.chars), pos: self.pos, byte_pos: self.byte_pos }
    }

    fn peek_char(&self) -> (r: Option<char>)
        requires
            self.wf(),
        ensures
            r == (if self.pos < self.str@.len() { Some(self.str@[self.pos as int]) } else { None::<char> }),
    {
        if self.pos < self.chars.len() {
            Some(self.chars[self.pos])
        } else {
            None
        }
    }

    fn next_char(&mut self) -> (r: Option<char>)
        requires
            old(self).wf(),
        ensures
            final(self).wf(),
            final(self).str == old(self).str,
            final(self).chars == old(self).chars,
            r == (if old(self).pos < old(self).str@.len() { Some(old(self).str@[old(self).pos as int]) } else { None::<char> }),
            final(self).pos == (if old(self).pos < old(self).str@.len() { old(self).pos + 1 } else { old(self).pos as int }),
    {
        if self.pos < self.chars.len() {
            let c = self.chars[self.pos];
            let w = char_width(c);
            proof {
                lemma_utf8_len_step(self.str@, self.pos as int);
                lemma_utf8_len_mono(self.str@, self.pos + 1, self.str@.len() as int);
                assert(self.str@.take(self.str@.len() as int) =~= self.str@);
            }
            self.pos = self.pos + 1;
            self.byte_pos = self.byte_pos + w;
            Some(c)
        } else {
            None
        }
    }

    /// Reads the text token `kind` made of the chars `start..self.pos`.
    fn slice(&self, start: usize, start_byte: usize, end: usize, end_byte: usize) -> (s: &'a str)
        requires
            self.wf(),
            start <= end <= self.str@.len(),
            start_byte == utf8_len(self.str@.take(start as int)),
            end_byte == utf8_len(self.str@.take(end as int)),
        ensures
            s@ == self.str@.subrange(start as int, end as int),
    {
        str_slice(self.str, start, end, start_byte, end_byte)
    }

    /// Reads the next token, after any whitespace, with its byte range.
    pub fn next_tok(&mut self) -> (r: Node<Result<Token<'a>, LexError>>)
        requires
            old(self).wf(),
        ensures
            final(self).wf(),
            final(self).source() == old(self).source(),
            ({
                let cs = old(self).source();
                let start = skip_ws(cs, old(self).position());
                let (lx, end) = lex_at(cs, start);
                &&& final(self).position() == end
                &&& r.1.start == utf8_len(cs.take(start as int))
                &&& r.1.end == utf8_len(cs.take(end as int))
                &&& lexeme_matches(lx, r.0, cs)
            }),
    {
        let ghost cs = self.str@;
        let ghost p0 = self.pos as nat;
        while self.pos < self.chars.len() && is_whitespace(self.chars[self.pos])
            invariant
                self.wf(),
                self.str@ == cs,
                self.str == old(self).str,
                skip_ws(cs, self.pos as nat) == skip_ws(cs, p0),
            decreases cs.len() - self.pos,
        {
            self.next_char();
        }
        let start = self.pos;
        let start_byte = self.byte_pos;
        let ghost sn = start as nat;
        assert(skip_ws(cs, sn) == sn);
        let token = match self.next_char() {
            None => Ok(Token::Eof),
            Some(c) => {
                if c == '(' { Ok(Token::LParen) }
                else if c == ')' { Ok(Token::RParen) }
                else if c == '{' { Ok(Token::LBrace) }
                else if c == '}' { Ok(Token::RBrace) }
                else if c == '[' { Ok(Token::LBrack) }
                else if c == ']' { Ok(Token::RBrack) }
                else if c == '<' {
                    match self.peek_char() {
                        Some('|') => { self.next_char(); Ok(Token::PipeL) }
                        Some('=') => { self.next_char(); Ok(Token::Lte) }
                        _ => Ok(Token::Lt),
                    }
                } else if c == '>' {
                    match self.peek_char() {
                        Some('=') => { self.next_char(); Ok(Token::Gte) }
                        _ => Ok(Token::Gt),
                    }
                } else if c == '!' {
                    match self.peek_char() {
                        Some('=') => { self.next_char(); Ok(Token::Ne) }
                        _ => Ok(Token::Bang),
                    }
                } else if c == '=' {
                    match self.peek_char() {
                        Some('=') => { self.next_char(); Ok(Token::Eq) }
                        _ => Ok(Token::Assign),
                    }
                } else if c == '+' { Ok(Token::Plus) }
                else if c == '-' {
                    match self.peek_char() {
                        Some('>') => { self.next_char(); Ok(Token::SmallRArrow) }
                        _ => Ok(Token::Minus),
                    }
                } else if c == '*' { Ok(Token::Star) }
                else if c == '/' {
                    match self.peek_char() {
                        Some('*') => {
                            self.next_char();
                            self.block_comment(start, start_byte)
                        }
                        _ => Ok(Token::Slash),
                    }
                } else if c == '%' { Ok(Token::Percent) }
                else if c == ';' { Ok(Token::Semicolon) }
                else if c == ':' {
                    match self.peek_char() {
                        Some(':') => { self.next_char(); Ok(Token::ColonColon) }
                        _ => Ok(Token::Colon),
                    }
                } else if c == '?' { Ok(Token::Question) }
                else if c == '@' { Ok(Token::At) }
                else if c == '$' { Ok(Token::Dollar) }
                else if c == ',' { Ok(Token::Comma) }
                else if c == '.' {
                    match self.peek_char() {
                        Some('.') => { self.next_char(); Ok(Token::DotDot) }
                        _ => Ok(Token::Dot),
                    }
                } else if c == '|' {
                    match self.peek_char() {
                        Some('|') => { self.next_char(); Ok(Token::Or) }
                        Some('>') => { self.next_char(); Ok(Token::PipeR) }
                        _ => Ok(Token::Bar),
                    }
                } else if c == '&' {
                    match self.peek_char() {
                        Some('&') => { self.next_char(); Ok(Token::And) }
                        _ => Err(LexError::UnexpectedChar('&')),
                    }
                } else if c == '"' {
                    self.string(start, start_byte)
                } else if ident_start(c) {
                    self.ident(start, start_byte)
                } else if c == '#' {
                    self.line_comment(start, start_byte)
                } else if '0' <= c && c <= '9' {
                    self.number(start, start_byte)
                } else {
                    Err(LexError::UnexpectedChar(c))
                }
            }
        };
        let end = self.byte_pos;
        (token, ByteRange { start: start_byte, end })
    }

    fn block_comment(&mut self, start: usize, start_byte: usize) -> (r: Result<Token<'a>, LexError>)
        requires
            old(self).wf(),
            start + 2 == old(self).pos,
            old(self).str@[start as int] == '/',
            old(self).str@[start + 1] == '*',
            start_byte == utf8_len(old(self).str@.take(start as int)),
        ensures
            final(self).wf(),
            final(self).str == old(self).str,
            ({
                let cs = old(self).str@;
                match block_comment_end(cs, (start + 2) as nat, false) {
                    Some(e) => r matches Ok(Token::Comment(s)) && s@ == cs.subrange(start + 2, e - 2)
                        && final(self).pos == e && e >= start + 4,
                    None => r == Err::<Token<'a>, LexError>(LexError::UnclosedComment)
                        && final(self).pos == cs.len(),
                }
            }),
    {
        let ghost cs = self.str@;
        let ghost target = block_comment_end(cs, (start + 2) as nat, false);
        let mut star = false;
        proof {
            lemma_utf8_len_step(cs, start as int);
            lemma_utf8_len_step(cs, start + 1);
        }
        let inner_byte = start_byte + 2;
        loop
            invariant
                self.wf(),
                self.str@ == cs,
                self.str == old(self).str,
                target == block_comment_end(cs, (start + 2) as nat, false),
                start + 2 <= self.pos,
                inner_byte == utf8_len(cs.take(start + 2)),
                block_comment_end(cs, self.pos as nat, star) == target,
                star ==> start + 3 <= self.pos && cs[self.pos - 1] == '*',
            decreases cs.len() - self.pos,
        {
            let before = self.byte_pos;
            match self.next_char() {
                Some('*') => star = true,
                Some('/') => {
                    if star {
                        proof {
                            lemma_utf8_len_step(cs, self.pos - 2);
                            lemma_utf8_len_step(cs, self.pos - 1);
                        }
                        let end_byte = self.byte_pos - 2;
                        return Ok(Token::Comment(self.slice(start + 2, inner_byte, self.pos - 2, end_byte)));
                    }
                    star = false;
                }
                None => return Err(LexError::UnclosedComment),
                _ => star = false,
            }
        }
    }

    fn string(&mut self, start: usize, start_byte: usize) -> (r: Result<Token<'a>, LexError>)
        requires
            old(self).wf(),
            start + 1 == old(self).pos,
            old(self).str@[start as int] == '"',
            start_byte == utf8_len(old(self).str@.take(start as int)),
        ensures
            final(self).wf(),
            final(self).str == old(self).str,
            ({
                let cs = old(self).str@;
                match string_end(cs, (start + 1) as nat) {
                    Some(e) => r matches Ok(Token::String(s)) && s@ == cs.subrange(start + 1, e - 1)
                        && final(self).pos == e && e >= start + 2,
                    None => r == Err::<Token<'a>, LexError>(LexError::UnclosedString)
                        && final(self).pos == cs.len(),
                }
            }),
    {
        let ghost cs = self.str@;
        let ghost target = string_end(cs, (start + 1) as nat);
        proof {
            lemma_utf8_len_step(cs, start as int);
        }
        let inner_byte = start_byte + 1;
        loop
            invariant
                self.wf(),
                self.str@ == cs,
                self.str == old(self).str,
                target == string_end(cs, (start + 1) as nat),
                start + 1 <= self.pos,
                inner_byte == utf8_len(cs.take(start + 1)),
                string_end(cs, self.pos as nat) == target,
            decreases cs.len() - self.pos,
        {
            match self.next_char() {
                None => return Err(LexError::UnclosedString),
                Some('"') => {
                    proof {
                        lemma_utf8_len_step(cs, self.pos - 1);
                    }
                    let end_byte = self.byte_pos - 1;
                    return Ok(Token::String(self.slice(start + 1, inner_byte, self.pos - 1, end_byte)));
                }
                Some('\\') => {
                    if self.next_char().is_none() {
                        return Err(LexError::UnclosedString);
                    }
                }
                _ => {}
            }
        }
    }

    fn ident(&mut self, start: usize, start_byte: usize) -> (r: Result<Token<'a>, LexError>)
        requires
            old(self).wf(),
            start + 1 == old(self).pos,
            spec_ident_start(old(self).str@[start as int]),
            start_byte == utf8_len(old(self).str@.take(start as int)),
        ensures
            final(self).wf(),
            final(self).str == old(self).str,
            ({
                let cs = old(self).str@;
                let e = ident_end(cs, (start + 1) as nat);
                &&& final(self).pos == e
                &&& match keyword(cs.subrange(start as int, e as int)) {
                    Some(k) => r == Ok::<Token<'a>, LexError>(k),
                    None => r matches Ok(Token::Ident(s)) && s@ == cs.subrange(start as int, e as int),
                }
            }),
    {
        let ghost cs = self.str@;
        let ghost target = ident_end(cs, (start + 1) as nat);
        while self.pos < self.chars.len() && ident_continue(self.chars[self.pos])
            invariant
                self.wf(),
                self.str@ == cs,
                self.str == old(self).str,
                target == ident_end(cs, (start + 1) as nat),
                start + 1 <= self.pos,
                ident_end(cs, self.pos as nat) == target,
            decreases cs.len() - self.pos,
        {
            self.next_char();
        }
        let end = self.pos;
        let cs_ref = &self.chars;
        let len = end - start;
        let ghost text = cs.subrange(start as int, end as int);
        if len == 2 && cs_ref[start] == 'i' && cs_ref[start + 1] == 'f' {
            assert(text =~= seq!['i', 'f']);
            return Ok(Token::If);
        }
        if len == 4 && cs_ref[start] == 't' && cs_ref[start + 1] == 'h' && cs_ref[start + 2] == 'e' && cs_ref[start + 3] == 'n' {
            assert(text =~= seq!['t', 'h', 'e', 'n']);
            return Ok(Token::Then);
        }
        if len == 4 && cs_ref[start] == 'e' && cs_ref[start + 1] == 'l' && cs_ref[start + 2] == 's' && cs_ref[start + 3] == 'e' {
            assert(text =~= seq!['e', 'l', 's', 'e']);
            return Ok(Token::Else);
        }
        if len == 3 && cs_ref[start] == 'l' && cs_ref[start + 1] == 'e' && cs_ref[start + 2] == 't' {
            assert(text =~= seq!['l', 'e', 't']);
            return Ok(Token::Let);
        }
        if len == 2 && cs_ref[start] == 'i' && cs_ref[start + 1] == 'n' {
            assert(text =~= seq!['i', 'n']);
            return Ok(Token::In);
        }
        proof {
            assert(text.len() == len);
            assert(forall|k: int| 0 <= k < len ==> text[k] == self.chars@[start + k]);
            assert(keyword(text) is None);
        }
        Ok(Token::Ident(self.slice(start, start_byte, end, self.byte_pos)))
    }

    fn line_comment(&mut self, start: usize, start_byte: usize) -> (r: Result<Token<'a>, LexError>)
        requires
            old(self).wf(),
            start + 1 == old(self).pos,
            old(self).str@[start as int] == '#',
            start_byte == utf8_len(old(self).str@.take(start as int)),
        ensures
            final(self).wf(),
            final(self).str == old(self).str,
            ({
                let cs = old(self).str@;
                let e = line_end(cs, (start + 1) as nat);
                &&& final(self).pos == e
                &&& r matches Ok(Token::Comment(s)) && s@ == cs.subrange(start + 1, e as int)
            }),
    {
        let ghost cs = self.str@;
        let ghost target = line_end(cs, (start + 1) as nat);
        proof {
            lemma_utf8_len_step(cs, start as int);
        }
        let inner_byte = start_byte + 1;
        while self.pos < self.chars.len() && self.chars[self.pos] != '\n'
            invariant
                self.wf(),
                self.str@ == cs,
                self.str == old(self).str,
                target == line_end(cs, (start + 1) as nat),
                start + 1 <= self.pos,
                line_end(cs, self.pos as nat) == target,
            decreases cs.len() - self.pos,
        {
            self.next_char();
        }
        Ok(Token::Comment(self.slice(start + 1, inner_byte, self.pos, self.byte_pos)))
    }

    fn number(&mut self, start: usize, start_byte: usize) -> (r: Result<Token<'a>, LexError>)
        requires
            old(self).wf(),
            start + 1 == old(self).pos,
            is_digit(old(self).str@[start as int]),
            start_byte == utf8_len(old(self).str@.take(start as int)),
        ensures
            final(self).wf(),
            final(self).str == old(self).str,
            ({
                let cs = old(self).str@;
                let e = number_end(cs, (start + 1) as nat);
                &&& final(self).pos == e
                &&& r matches Ok(Token::Num(s)) && s@ == cs.subrange(start as int, e as int)
            }),
    {
        let ghost cs = self.str@;
        let ghost target = number_end(cs, (start + 1) as nat);
        while self.pos < self.chars.len() && (('0' <= self.chars[self.pos] && self.chars[self.pos] <= '9') || self.chars[self.pos] == '_')
            invariant
                self.wf(),
                self.str@ == cs,
                self.str == old(self).str,
                target == number_end(cs, (start + 1) as nat),
                start + 1 <= self.pos,
                number_end(cs, self.pos as nat) == target,
            decreases cs.len() - self.pos,
        {
            self.next_char();
        }
        Ok(Token::Num(self.slice(start, start_byte, self.pos, self.byte_pos)))
    }
}


/// Whether reading tokens from index `pos` of `cs`, up to the end, meets a
/// comment. Errors are read past like any other token.
pub open spec fn has_comment_from(cs: Seq<char>, pos: nat) -> bool
    decreases cs.len() - pos,
{
    if pos > cs.len() {
        false
    } else {
        let start = skip_ws(cs, pos);
        let (lx, end) = lex_at::<'static>(cs, start);
        if lx is Comment {
            true
        } else if lx matches Lexeme::Plain(Token::Eof) {
            false
        } else {
            proof {
                lemma_skip_ws_bounds(cs, pos);
                lemma_lex_at_progress(cs, start);
            }
            has_comment_from(cs, end)
        }
    }
}

/// Whether `source` holds a comment, which formatting would drop.
pub fn contains_comments(source: &str) -> (r: bool)
    ensures
        r == has_comment_from(source@, 0),
{
    let mut lexer = Lexer::new(source);
    loop
        invariant
            lexer.wf(),
            lexer.source() == source@,
            has_comment_from(source@, 0) == has_comment_from(source@, lexer.position()),
        decreases source@.len() - lexer.position(),
    {
        let ghost pos = lexer.position();
        proof {
            lexer.lemma_position_in_bounds();
            lemma_skip_ws_bounds(source@, pos);
            lemma_lex_at_progress(source@, skip_ws(source@, pos));
        }
        let tok = lexer.next_tok();
        match tok.0 {
            Ok(Token::Comment(_)) => {
                return true;
            },
            Ok(Token::Eof) => {
                return false;
            },
            _ => {},
        }
    }
}

} // verus!
