use vstd::prelude::*;

use crate::lex::Token;

verus! {

#[derive(Clone, Copy, Debug, PartialEq, Eq, Structural)]
pub enum Delim {
    Paren,
    Brack,
    Brace,
}

pub open spec fn closing_text(d: Delim) -> Seq<char> {
    match d {
        Delim::Paren => ")"@,
        Delim::Brack => "]"@,
        Delim::Brace => "}"@,
    }
}

impl Delim {
    /// The text of the closing delimiter.
    pub fn closing(&self) -> (s: &'static str)
        ensures
            s@ == closing_text(*self),
    {
        match self {
            Delim::Paren => ")",
            Delim::Brack => "]",
            Delim::Brace => "}",
        }
    }
}

pub open spec fn spec_starts_expr(t: Token) -> bool {
    t is Ident || t is Num || t is String || t is LParen || t is LBrace || t is LBrack || t is Bang
        || t is Minus || t is If || t is Let
}

pub open spec fn spec_start_fn_arg(t: Token) -> bool {
    t is Ident || t is Num || t is String || t is LParen || t is LBrace || t is LBrack || t is If
        || t is Let
}

impl<'a> Token<'a> {
    /// Whether an expression can start with this token.
    pub fn starts_expr(&self) -> (r: bool)
        ensures
            r == spec_starts_expr(*self),
    {
        match self {
            Token::Ident(_) | Token::Num(_) | Token::String(_) | Token::LParen | Token::LBrace
            | Token::LBrack | Token::Bang | Token::Minus | Token::If | Token::Let => true,
            _ => false,
        }
    }

    /// Whether a function argument can start with this token.
    pub fn start_fn_arg(&self) -> (r: bool)
        ensures
            r == spec_start_fn_arg(*self),
    {
        match self {
            Token::Ident(_) | Token::Num(_) | Token::String(_) | Token::LParen | Token::LBrace
            | Token::LBrack | Token::If | Token::Let => true,
            _ => false,
        }
    }
}

} // verus!
