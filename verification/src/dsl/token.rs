//! Tokens of the expression language.
use vstd::prelude::*;

verus! {

/// A token ready for parsing. A number carries the bit pattern of its
/// IEEE-754 binary64 value; an identifier carries its name.
#[derive(Debug)]
pub enum Tok {
    Num(u64),
    Ident(String),
    Plus,
    Minus,
    Star,
    Slash,
    Pow,
    LParen,
    RParen,
    Comma,
}

/// The mathematical value of a `Tok`.
pub enum TokV {
    Num(u64),
    Ident(Seq<char>),
    Plus,
    Minus,
    Star,
    Slash,
    Pow,
    LParen,
    RParen,
    Comma,
}

impl View for Tok {
    type V = TokV;

    open spec fn view(&self) -> TokV {
        match self {
            Tok::Num(v) => TokV::Num(*v),
            Tok::Ident(s) => TokV::Ident(s@),
            Tok::Plus => TokV::Plus,
            Tok::Minus => TokV::Minus,
            Tok::Star => TokV::Star,
            Tok::Slash => TokV::Slash,
            Tok::Pow => TokV::Pow,
            Tok::LParen => TokV::LParen,
            Tok::RParen => TokV::RParen,
            Tok::Comma => TokV::Comma,
        }
    }
}

/// What the tokenizer yields: a numeric literal still in its source text (its
/// binary64 value is obtained by the caller), or any other token.
#[derive(Debug)]
pub enum Lexeme {
    Number(Vec<u8>),
    Token(Tok),
}

/// The mathematical value of a `Lexeme`.
pub enum LexemeV {
    Number(Seq<u8>),
    Token(TokV),
}

impl View for Lexeme {
    type V = LexemeV;

    open spec fn view(&self) -> LexemeV {
        match self {
            Lexeme::Number(s) => LexemeV::Number(s@),
            Lexeme::Token(t) => LexemeV::Token(t@),
        }
    }
}

pub open spec fn toks_view(v: Seq<Tok>) -> Seq<TokV> {
    v.map_values(|t: Tok| t@)
}

pub open spec fn lexemes_view(v: Seq<Lexeme>) -> Seq<LexemeV> {
    v.map_values(|l: Lexeme| l@)
}

impl Tok {
    /// A copy of this token.
    pub fn duplicate(&self) -> (r: Tok)
        ensures
            r@ == self@,
    {
        match self {
            Tok::Num(v) => Tok::Num(*v),
            Tok::Ident(s) => Tok::Ident(s.clone()),
            Tok::Plus => Tok::Plus,
            Tok::Minus => Tok::Minus,
            Tok::Star => Tok::Star,
            Tok::Slash => Tok::Slash,
            Tok::Pow => Tok::Pow,
            Tok::LParen => Tok::LParen,
            Tok::RParen => Tok::RParen,
            Tok::Comma => Tok::Comma,
        }
    }
}

} // verus!
