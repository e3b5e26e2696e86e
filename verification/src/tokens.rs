//! The tokens of a problem description.

use vstd::prelude::*;

verus! {

/// A token of a problem description.
#[derive(Debug, PartialEq)]
pub enum Token {
    Identifier(String),
    Number(u64),
    Optimize,
    Colon,
    Semicolon,
    LeftParen,
    RightParen,
    NewLine,
    Time,
    Invalid(String),
}

/// A token as plain values.
pub enum TokenView {
    Identifier(Seq<char>),
    Number(nat),
    Optimize,
    Colon,
    Semicolon,
    LeftParen,
    RightParen,
    NewLine,
    Time,
    Invalid(Seq<char>),
}

impl View for Token {
    type V = TokenView;

    open spec fn view(&self) -> TokenView {
        match self {
            Token::Identifier(text) => TokenView::Identifier(text@),
            Token::Number(n) => TokenView::Number(*n as nat),
            Token::Optimize => TokenView::Optimize,
            Token::Colon => TokenView::Colon,
            Token::Semicolon => TokenView::Semicolon,
            Token::LeftParen => TokenView::LeftParen,
            Token::RightParen => TokenView::RightParen,
            Token::NewLine => TokenView::NewLine,
            Token::Time => TokenView::Time,
            Token::Invalid(text) => TokenView::Invalid(text@),
        }
    }
}

/// A list of tokens as plain values.
pub open spec fn tokens_view(list: Seq<Token>) -> Seq<TokenView> {
    Seq::new(list.len(), |i: int| list[i]@)
}

impl Token {
    /// Whether two tokens are of one kind and carry the same text or number.
    pub fn same_as(&self, other: &Token) -> (b: bool)
        ensures
            b == (self@ == other@),
    {
        match (self, other) {
            (Token::Identifier(a), Token::Identifier(b)) => *a == *b,
            (Token::Number(a), Token::Number(b)) => *a == *b,
            (Token::Optimize, Token::Optimize) => true,
            (Token::Colon, Token::Colon) => true,
            (Token::Semicolon, Token::Semicolon) => true,
            (Token::LeftParen, Token::LeftParen) => true,
            (Token::RightParen, Token::RightParen) => true,
            (Token::NewLine, Token::NewLine) => true,
            (Token::Time, Token::Time) => true,
            (Token::Invalid(a), Token::Invalid(b)) => *a == *b,
            _ => false,
        }
    }

    /// A copy of the token.
    pub fn duplicate(&self) -> (copy: Token)
        ensures
            copy@ == self@,
    {
        match self {
            Token::Identifier(text) => Token::Identifier(text.clone()),
            Token::Number(n) => Token::Number(*n),
            Token::Optimize => Token::Optimize,
            Token::Colon => Token::Colon,
            Token::Semicolon => Token::Semicolon,
            Token::LeftParen => Token::LeftParen,
            Token::RightParen => Token::RightParen,
            Token::NewLine => Token::NewLine,
            Token::Time => Token::Time,
            Token::Invalid(text) => Token::Invalid(text.clone()),
        }
    }
}

} // verus!
