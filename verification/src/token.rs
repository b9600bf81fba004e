//! The tokens of a document.
use vstd::prelude::*;

verus! {

/// What a token is.
#[derive(Debug, PartialEq, Eq)]
pub enum TokenKind {
    /// `@prefix`.
    AtPrefix,
    /// `PREFIX`.
    Prefix,
    /// `@base`.
    AtBase,
    /// `BASE`.
    Base,
    LBrace,
    RBrace,
    LBracket,
    RBracket,
    LParen,
    RParen,
    Dot,
    Comma,
    Semicolon,
    /// `=>`.
    Arrow,
    /// `<=`.
    BackArrow,
    Equals,
    /// `^^`.
    HatHat,
    /// The word `a`.
    A,
    /// The end of the text.
    Eof,
    /// `<...>`, without the brackets.
    Iri(String),
    /// A name, with the colon that it may hold.
    PName(String),
    /// `?name`, without the question mark.
    Var(String),
    /// `_:label`, without `_:`.
    Blank(String),
    /// A quoted string, with its escapes replaced.
    String(String),
    /// A number as it is written.
    Number(String),
    /// `@tag`, without the at sign.
    Lang(String),
    /// `true` or `false`.
    Boolean(bool),
}

/// A token, with the index of its first character in the text.
#[derive(Debug, PartialEq, Eq)]
pub struct Token {
    pub kind: TokenKind,
    pub offset: usize,
}

/// The value of a [`TokenKind`].
pub enum KindView {
    AtPrefix,
    Prefix,
    AtBase,
    Base,
    LBrace,
    RBrace,
    LBracket,
    RBracket,
    LParen,
    RParen,
    Dot,
    Comma,
    Semicolon,
    Arrow,
    BackArrow,
    Equals,
    HatHat,
    A,
    Eof,
    Iri(Seq<char>),
    PName(Seq<char>),
    Var(Seq<char>),
    Blank(Seq<char>),
    String(Seq<char>),
    Number(Seq<char>),
    Lang(Seq<char>),
    Boolean(bool),
}

/// The value of a [`Token`].
pub struct TokenView {
    pub kind: KindView,
    pub offset: int,
}

impl View for TokenKind {
    type V = KindView;

    open spec fn view(&self) -> KindView {
        match self {
            TokenKind::AtPrefix => KindView::AtPrefix,
            TokenKind::Prefix => KindView::Prefix,
            TokenKind::AtBase => KindView::AtBase,
            TokenKind::Base => KindView::Base,
            TokenKind::LBrace => KindView::LBrace,
            TokenKind::RBrace => KindView::RBrace,
            TokenKind::LBracket => KindView::LBracket,
            TokenKind::RBracket => KindView::RBracket,
            TokenKind::LParen => KindView::LParen,
            TokenKind::RParen => KindView::RParen,
            TokenKind::Dot => KindView::Dot,
            TokenKind::Comma => KindView::Comma,
            TokenKind::Semicolon => KindView::Semicolon,
            TokenKind::Arrow => KindView::Arrow,
            TokenKind::BackArrow => KindView::BackArrow,
            TokenKind::Equals => KindView::Equals,
            TokenKind::HatHat => KindView::HatHat,
            TokenKind::A => KindView::A,
            TokenKind::Eof => KindView::Eof,
            TokenKind::Iri(s) => KindView::Iri(s@),
            TokenKind::PName(s) => KindView::PName(s@),
            TokenKind::Var(s) => KindView::Var(s@),
            TokenKind::Blank(s) => KindView::Blank(s@),
            TokenKind::String(s) => KindView::String(s@),
            TokenKind::Number(s) => KindView::Number(s@),
            TokenKind::Lang(s) => KindView::Lang(s@),
            TokenKind::Boolean(b) => KindView::Boolean(*b),
        }
    }
}

impl View for Token {
    type V = TokenView;

    open spec fn view(&self) -> TokenView {
        TokenView { kind: self.kind@, offset: self.offset as int }
    }
}

/// The values of a sequence of tokens.
pub open spec fn tokens(items: Seq<Token>) -> Seq<TokenView> {
    Seq::new(items.len(), |i: int| items[i]@)
}

/// Whether two kinds are of the same sort, whatever they carry.
pub open spec fn like(a: KindView, b: KindView) -> bool {
    match (a, b) {
        (KindView::AtPrefix, KindView::AtPrefix) => true,
        (KindView::Prefix, KindView::Prefix) => true,
        (KindView::AtBase, KindView::AtBase) => true,
        (KindView::Base, KindView::Base) => true,
        (KindView::LBrace, KindView::LBrace) => true,
        (KindView::RBrace, KindView::RBrace) => true,
        (KindView::LBracket, KindView::LBracket) => true,
        (KindView::RBracket, KindView::RBracket) => true,
        (KindView::LParen, KindView::LParen) => true,
        (KindView::RParen, KindView::RParen) => true,
        (KindView::Dot, KindView::Dot) => true,
        (KindView::Comma, KindView::Comma) => true,
        (KindView::Semicolon, KindView::Semicolon) => true,
        (KindView::Arrow, KindView::Arrow) => true,
        (KindView::BackArrow, KindView::BackArrow) => true,
        (KindView::Equals, KindView::Equals) => true,
        (KindView::HatHat, KindView::HatHat) => true,
        (KindView::A, KindView::A) => true,
        (KindView::Eof, KindView::Eof) => true,
        (KindView::Iri(_), KindView::Iri(_)) => true,
        (KindView::PName(_), KindView::PName(_)) => true,
        (KindView::Var(_), KindView::Var(_)) => true,
        (KindView::Blank(_), KindView::Blank(_)) => true,
        (KindView::String(_), KindView::String(_)) => true,
        (KindView::Number(_), KindView::Number(_)) => true,
        (KindView::Lang(_), KindView::Lang(_)) => true,
        (KindView::Boolean(_), KindView::Boolean(_)) => true,
        _ => false,
    }
}

impl Clone for TokenKind {
    fn clone(&self) -> (r: TokenKind)
        ensures
            r@ == self@,
    {
        match self {
            TokenKind::AtPrefix => TokenKind::AtPrefix,
            TokenKind::Prefix => TokenKind::Prefix,
            TokenKind::AtBase => TokenKind::AtBase,
            TokenKind::Base => TokenKind::Base,
            TokenKind::LBrace => TokenKind::LBrace,
            TokenKind::RBrace => TokenKind::RBrace,
            TokenKind::LBracket => TokenKind::LBracket,
            TokenKind::RBracket => TokenKind::RBracket,
            TokenKind::LParen => TokenKind::LParen,
            TokenKind::RParen => TokenKind::RParen,
            TokenKind::Dot => TokenKind::Dot,
            TokenKind::Comma => TokenKind::Comma,
            TokenKind::Semicolon => TokenKind::Semicolon,
            TokenKind::Arrow => TokenKind::Arrow,
            TokenKind::BackArrow => TokenKind::BackArrow,
            TokenKind::Equals => TokenKind::Equals,
            TokenKind::HatHat => TokenKind::HatHat,
            TokenKind::A => TokenKind::A,
            TokenKind::Eof => TokenKind::Eof,
            TokenKind::Iri(s) => TokenKind::Iri(s.clone()),
            TokenKind::PName(s) => TokenKind::PName(s.clone()),
            TokenKind::Var(s) => TokenKind::Var(s.clone()),
            TokenKind::Blank(s) => TokenKind::Blank(s.clone()),
            TokenKind::String(s) => TokenKind::String(s.clone()),
            TokenKind::Number(s) => TokenKind::Number(s.clone()),
            TokenKind::Lang(s) => TokenKind::Lang(s.clone()),
            TokenKind::Boolean(b) => TokenKind::Boolean(*b),
        }
    }
}

impl Clone for Token {
    fn clone(&self) -> (r: Token)
        ensures
            r@ == self@,
    {
        Token { kind: self.kind.clone(), offset: self.offset }
    }
}

/// Whether two kinds are of the same sort, whatever they carry.
pub fn same_variant(a: &TokenKind, b: &TokenKind) -> (r: bool)
    ensures
        r == like(a@, b@),
{
    match (a, b) {
        (TokenKind::AtPrefix, TokenKind::AtPrefix) => true,
        (TokenKind::Prefix, TokenKind::Prefix) => true,
        (TokenKind::AtBase, TokenKind::AtBase) => true,
        (TokenKind::Base, TokenKind::Base) => true,
        (TokenKind::LBrace, TokenKind::LBrace) => true,
        (TokenKind::RBrace, TokenKind::RBrace) => true,
        (TokenKind::LBracket, TokenKind::LBracket) => true,
        (TokenKind::RBracket, TokenKind::RBracket) => true,
        (TokenKind::LParen, TokenKind::LParen) => true,
        (TokenKind::RParen, TokenKind::RParen) => true,
        (TokenKind::Dot, TokenKind::Dot) => true,
        (TokenKind::Comma, TokenKind::Comma) => true,
        (TokenKind::Semicolon, TokenKind::Semicolon) => true,
        (TokenKind::Arrow, TokenKind::Arrow) => true,
        (TokenKind::BackArrow, TokenKind::BackArrow) => true,
        (TokenKind::Equals, TokenKind::Equals) => true,
        (TokenKind::HatHat, TokenKind::HatHat) => true,
        (TokenKind::A, TokenKind::A) => true,
        (TokenKind::Eof, TokenKind::Eof) => true,
        (TokenKind::Iri(_), TokenKind::Iri(_)) => true,
        (TokenKind::PName(_), TokenKind::PName(_)) => true,
        (TokenKind::Var(_), TokenKind::Var(_)) => true,
        (TokenKind::Blank(_), TokenKind::Blank(_)) => true,
        (TokenKind::String(_), TokenKind::String(_)) => true,
        (TokenKind::Number(_), TokenKind::Number(_)) => true,
        (TokenKind::Lang(_), TokenKind::Lang(_)) => true,
        (TokenKind::Boolean(_), TokenKind::Boolean(_)) => true,
        _ => false,
    }
}

} // verus!
