use vstd::prelude::*;

use crate::text::{push_char, push_str};
use vstd::string::*;

verus! {

/// A lexical token; text tokens borrow their text from the source.
#[derive(Clone, Copy, Debug)]
pub enum Token<'a> {
    Ident(&'a str),
    Num(&'a str),
    String(&'a str),
    Comment(&'a str),
    LParen,
    RParen,
    LBrace,
    RBrace,
    LBrack,
    RBrack,
    If,
    Then,
    Else,
    Let,
    In,
    Bang,
    Percent,
    SmallRArrow,
    Eq,
    Ne,
    Gt,
    Gte,
    Lt,
    Lte,
    Assign,
    Comma,
    Semicolon,
    Colon,
    ColonColon,
    Dot,
    DotDot,
    Question,
    At,
    PipeR,
    PipeL,
    Bar,
    Plus,
    Minus,
    Star,
    Slash,
    Or,
    And,
    Eof,
    Dollar,
}

/// A number that tells the variants apart.
pub open spec fn spec_tag(t: Token) -> u8 {
    match t {
        Token::Ident(_) => 0u8,
        Token::Num(_) => 1u8,
        Token::String(_) => 2u8,
        Token::Comment(_) => 3u8,
        Token::LParen => 4u8,
        Token::RParen => 5u8,
        Token::LBrace => 6u8,
        Token::RBrace => 7u8,
        Token::LBrack => 8u8,
        Token::RBrack => 9u8,
        Token::If => 10u8,
        Token::Then => 11u8,
        Token::Else => 12u8,
        Token::Let => 13u8,
        Token::In => 14u8,
        Token::Bang => 15u8,
        Token::Percent => 16u8,
        Token::SmallRArrow => 17u8,
        Token::Eq => 18u8,
        Token::Ne => 19u8,
        Token::Gt => 20u8,
        Token::Gte => 21u8,
        Token::Lt => 22u8,
        Token::Lte => 23u8,
        Token::Assign => 24u8,
        Token::Comma => 25u8,
        Token::Semicolon => 26u8,
        Token::Colon => 27u8,
        Token::ColonColon => 28u8,
        Token::Dot => 29u8,
        Token::DotDot => 30u8,
        Token::Question => 31u8,
        Token::At => 32u8,
        Token::PipeR => 33u8,
        Token::PipeL => 34u8,
        Token::Bar => 35u8,
        Token::Plus => 36u8,
        Token::Minus => 37u8,
        Token::Star => 38u8,
        Token::Slash => 39u8,
        Token::Or => 40u8,
        Token::And => 41u8,
        Token::Eof => 42u8,
        Token::Dollar => 43u8,
    }
}

/// Whether the token carries no text.
pub open spec fn is_plain(t: Token) -> bool {
    !(t is Ident || t is Num || t is String || t is Comment)
}

/// How `{}` (or `{:#}` when `alternate`) shows a token.
pub open spec fn token_display(t: Token, alternate: bool) -> Seq<char> {
    match t {
        Token::Ident(s) => if alternate { seq!['\''] + s@ + seq!['\''] } else { "ident"@ },
        Token::Num(s) => if alternate { seq!['\''] + s@ + seq!['\''] } else { "number"@ },
        Token::String(_) => "string"@,
        Token::Comment(_) => "comment"@,
        Token::LParen => "'('"@,
        Token::RParen => "')'"@,
        Token::LBrace => "'{'"@,
        Token::RBrace => "'}'"@,
        Token::LBrack => "'['"@,
        Token::RBrack => "']'"@,
        Token::If => "if"@,
        Token::Then => "then"@,
        Token::Else => "else"@,
        Token::Let => "let"@,
        Token::In => "in"@,
        Token::Bang => "!"@,
        Token::Percent => "'%'"@,
        Token::SmallRArrow => "'->'"@,
        Token::Eq => "'=='"@,
        Token::Ne => "'!='"@,
        Token::Gt => "'>'"@,
        Token::Gte => "'>='"@,
        Token::Lt => "'<'"@,
        Token::Lte => "'<='"@,
        Token::Assign => "'='"@,
        Token::Comma => "','"@,
        Token::Semicolon => "';'"@,
        Token::Colon => ":"@,
        Token::ColonColon => "::"@,
        Token::Dot => "."@,
        Token::DotDot => ".."@,
        Token::Question => "?"@,
        Token::At => "@"@,
        Token::PipeR => "|>"@,
        Token::PipeL => "<|"@,
        Token::Bar => "|"@,
        Token::Plus => "'+'"@,
        Token::Minus => "'-'"@,
        Token::Star => "'*'"@,
        Token::Slash => "'/'"@,
        Token::Or => "'||'"@,
        Token::And => "'&&'"@,
        Token::Eof => "eof"@,
        Token::Dollar => "$"@,
    }
}

impl<'a> Token<'a> {
    /// The number that tells this variant apart.
    pub fn tag(&self) -> (r: u8)
        ensures
            r == spec_tag(*self),
    {
        match self {
            Token::Ident(_) => 0,
            Token::Num(_) => 1,
            Token::String(_) => 2,
            Token::Comment(_) => 3,
            Token::LParen => 4,
            Token::RParen => 5,
            Token::LBrace => 6,
            Token::RBrace => 7,
            Token::LBrack => 8,
            Token::RBrack => 9,
            Token::If => 10,
            Token::Then => 11,
            Token::Else => 12,
            Token::Let => 13,
            Token::In => 14,
            Token::Bang => 15,
            Token::Percent => 16,
            Token::SmallRArrow => 17,
            Token::Eq => 18,
            Token::Ne => 19,
            Token::Gt => 20,
            Token::Gte => 21,
            Token::Lt => 22,
            Token::Lte => 23,
            Token::Assign => 24,
            Token::Comma => 25,
            Token::Semicolon => 26,
            Token::Colon => 27,
            Token::ColonColon => 28,
            Token::Dot => 29,
            Token::DotDot => 30,
            Token::Question => 31,
            Token::At => 32,
            Token::PipeR => 33,
            Token::PipeL => 34,
            Token::Bar => 35,
            Token::Plus => 36,
            Token::Minus => 37,
            Token::Star => 38,
            Token::Slash => 39,
            Token::Or => 40,
            Token::And => 41,
            Token::Eof => 42,
            Token::Dollar => 43,
        }
    }

    /// Whether this token equals `other`, a token that carries no text.
    pub fn is(&self, other: Token) -> (r: bool)
        requires
            is_plain(other),
        ensures
            r == (*self == other),
    {
        self.tag() == other.tag()
    }

    /// The text shown for this token: `{}` or, when `alternate`, `{:#}`.
    pub fn display(&self, alternate: bool) -> (s: String)
        ensures
            s@ == token_display(*self, alternate),
    {
        match self {
            Token::Ident(s) => if alternate { quoted(s) } else { String::from_str("ident") },
            Token::Num(s) => if alternate { quoted(s) } else { String::from_str("number") },
            Token::String(_) => String::from_str("string"),
            Token::Comment(_) => String::from_str("comment"),
            Token::LParen => String::from_str("'('"),
            Token::RParen => String::from_str("')'"),
            Token::LBrace => String::from_str("'{'"),
            Token::RBrace => String::from_str("'}'"),
            Token::LBrack => String::from_str("'['"),
            Token::RBrack => String::from_str("']'"),
            Token::If => String::from_str("if"),
            Token::Then => String::from_str("then"),
            Token::Else => String::from_str("else"),
            Token::Let => String::from_str("let"),
            Token::In => String::from_str("in"),
            Token::Bang => String::from_str("!"),
            Token::Percent => String::from_str("'%'"),
            Token::SmallRArrow => String::from_str("'->'"),
            Token::Eq => String::from_str("'=='"),
            Token::Ne => String::from_str("'!='"),
            Token::Gt => String::from_str("'>'"),
            Token::Gte => String::from_str("'>='"),
            Token::Lt => String::from_str("'<'"),
            Token::Lte => String::from_str("'<='"),
            Token::Assign => String::from_str("'='"),
            Token::Comma => String::from_str("','"),
            Token::Semicolon => String::from_str("';'"),
            Token::Colon => String::from_str(":"),
            Token::ColonColon => String::from_str("::"),
            Token::Dot => String::from_str("."),
            Token::DotDot => String::from_str(".."),
            Token::Question => String::from_str("?"),
            Token::At => String::from_str("@"),
            Token::PipeR => String::from_str("|>"),
            Token::PipeL => String::from_str("<|"),
            Token::Bar => String::from_str("|"),
            Token::Plus => String::from_str("'+'"),
            Token::Minus => String::from_str("'-'"),
            Token::Star => String::from_str("'*'"),
            Token::Slash => String::from_str("'/'"),
            Token::Or => String::from_str("'||'"),
            Token::And => String::from_str("'&&'"),
            Token::Eof => String::from_str("eof"),
            Token::Dollar => String::from_str("$"),
        }
    }
}

fn quoted(s: &str) -> (r: String)
    ensures
        r@ == seq!['\''] + s@ + seq!['\''],
{
    let mut r = String::new();
    push_char(&mut r, '\'');
    push_str(&mut r, s);
    push_char(&mut r, '\'');
    assert(r@ =~= seq!['\''] + s@ + seq!['\'']);
    r
}

} // verus!
