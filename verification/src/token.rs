//! The tokens of the language and their mathematical view.

use vstd::prelude::*;

verus! {

/// One lexical unit of the source text.
///
/// `Str` carries the literal exactly as written, both quote characters
/// included and escapes left alone. `Ident` carries the word as written.
#[derive(Debug, Clone, PartialEq, Eq)]
pub enum Token {
    If,
    Loop,
    Break,
    Continue,
    Let,
    LParen,
    RParen,
    LBrace,
    RBrace,
    Fn,
    Macro,
    Plus,
    Minus,
    Times,
    Divide,
    Equal,
    Less,
    Great,
    Period,
    Comma,
    Newline,
    Str(String),
    Int(i64),
    Bool(bool),
    Ident(String),
}

/// What a [`Token`] is in contracts: the same variants, with text as a
/// sequence of characters.
pub ghost enum TokenView {
    If,
    Loop,
    Break,
    Continue,
    Let,
    LParen,
    RParen,
    LBrace,
    RBrace,
    Fn,
    Macro,
    Plus,
    Minus,
    Times,
    Divide,
    Equal,
    Less,
    Great,
    Period,
    Comma,
    Newline,
    Str(Seq<char>),
    Int(i64),
    Bool(bool),
    Ident(Seq<char>),
}

impl View for Token {
    type V = TokenView;

    open spec fn view(&self) -> TokenView {
        match *self {
            Token::If => TokenView::If,
            Token::Loop => TokenView::Loop,
            Token::Break => TokenView::Break,
            Token::Continue => TokenView::Continue,
            Token::Let => TokenView::Let,
            Token::LParen => TokenView::LParen,
            Token::RParen => TokenView::RParen,
            Token::LBrace => TokenView::LBrace,
            Token::RBrace => TokenView::RBrace,
            Token::Fn => TokenView::Fn,
            Token::Macro => TokenView::Macro,
            Token::Plus => TokenView::Plus,
            Token::Minus => TokenView::Minus,
            Token::Times => TokenView::Times,
            Token::Divide => TokenView::Divide,
            Token::Equal => TokenView::Equal,
            Token::Less => TokenView::Less,
            Token::Great => TokenView::Great,
            Token::Period => TokenView::Period,
            Token::Comma => TokenView::Comma,
            Token::Newline => TokenView::Newline,
            Token::Str(text) => TokenView::Str(text@),
            Token::Int(value) => TokenView::Int(value),
            Token::Bool(value) => TokenView::Bool(value),
            Token::Ident(text) => TokenView::Ident(text@),
        }
    }
}

/// The views of a sequence of tokens, in order.
pub open spec fn token_views(tokens: Seq<Token>) -> Seq<TokenView> {
    Seq::new(tokens.len(), |k: int| tokens[k]@)
}

} // verus!
