//! Tokens of the language.

use vstd::prelude::*;

verus! {

/// A lexical unit of the language.
#[derive(Debug, Clone, PartialEq, Eq)]
pub enum Token {
    /// Input that no token starts with, or a malformed number.
    Illegal,
    /// The end of the input; the scanner keeps returning it once reached.
    EndOfFile,
    Id(String),
    Literal(i32),
    Assign,
    Plus,
    Minus,
    Multiply,
    Semicolon,
    LeftParenthesis,
    RightParenthesis,
}

/// The mathematical value of a token: a name is its sequence of characters.
pub enum TokenView {
    Illegal,
    EndOfFile,
    Id(Seq<char>),
    Literal(i32),
    Assign,
    Plus,
    Minus,
    Multiply,
    Semicolon,
    LeftParenthesis,
    RightParenthesis,
}

impl View for Token {
    type V = TokenView;

    open spec fn view(&self) -> TokenView {
        match self {
            Token::Illegal => TokenView::Illegal,
            Token::EndOfFile => TokenView::EndOfFile,
            Token::Id(name) => TokenView::Id(name@),
            Token::Literal(v) => TokenView::Literal(*v),
            Token::Assign => TokenView::Assign,
            Token::Plus => TokenView::Plus,
            Token::Minus => TokenView::Minus,
            Token::Multiply => TokenView::Multiply,
            Token::Semicolon => TokenView::Semicolon,
            Token::LeftParenthesis => TokenView::LeftParenthesis,
            Token::RightParenthesis => TokenView::RightParenthesis,
        }
    }
}

impl Token {
    /// Structural equality: same kind and same payload.
    pub fn same_as(&self, other: &Token) -> (r: bool)
        ensures
            r == (self@ == other@),
    {
        match (self, other) {
            (Token::Illegal, Token::Illegal) => true,
            (Token::EndOfFile, Token::EndOfFile) => true,
            (Token::Id(a), Token::Id(b)) => *a == *b,
            (Token::Literal(a), Token::Literal(b)) => *a == *b,
            (Token::Assign, Token::Assign) => true,
            (Token::Plus, Token::Plus) => true,
            (Token::Minus, Token::Minus) => true,
            (Token::Multiply, Token::Multiply) => true,
            (Token::Semicolon, Token::Semicolon) => true,
            (Token::LeftParenthesis, Token::LeftParenthesis) => true,
            (Token::RightParenthesis, Token::RightParenthesis) => true,
            _ => false,
        }
    }

    /// A copy with the same view.
    pub fn duplicate(&self) -> (r: Token)
        ensures
            r@ == self@,
    {
        match self {
            Token::Illegal => Token::Illegal,
            Token::EndOfFile => Token::EndOfFile,
            Token::Id(name) => Token::Id(name.clone()),
            Token::Literal(v) => Token::Literal(*v),
            Token::Assign => Token::Assign,
            Token::Plus => Token::Plus,
            Token::Minus => Token::Minus,
            Token::Multiply => Token::Multiply,
            Token::Semicolon => Token::Semicolon,
            Token::LeftParenthesis => Token::LeftParenthesis,
            Token::RightParenthesis => Token::RightParenthesis,
        }
    }
}

} // verus!
