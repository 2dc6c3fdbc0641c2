//! Tokens: what the scanner hands to the parser.
use vstd::prelude::*;
use vstd::string::*;

use crate::number::Number;
use crate::text::{decimal, decimal_text};

verus! {

/// The kind of a token, with its payload.
#[derive(Debug, PartialEq)]
pub enum TokenType {
    /// A decimal literal and its value.
    Number(Number),
    /// A name.
    Identifier(String),
    /// `*`
    Star,
    /// `+`
    Plus,
    /// `/`
    Slash,
    /// `-`
    Minus,
    /// `(`
    LeftParen,
    /// `)`
    RightParen,
    /// `=`
    Equal,
    /// `^`
    Hat,
}

/// A token: its kind, the text it was read from and the column, counted from
/// one, of the first character of that text.
#[derive(Debug, PartialEq)]
pub struct Token {
    pub token_type: TokenType,
    pub lexeme: String,
    pub column: usize,
}

/// The mathematical value of a [`TokenType`]: names are character sequences.
pub enum TokenTypeView {
    Number(Number),
    Identifier(Seq<char>),
    Star,
    Plus,
    Slash,
    Minus,
    LeftParen,
    RightParen,
    Equal,
    Hat,
}

/// The mathematical value of a [`Token`].
pub struct TokenView {
    pub token_type: TokenTypeView,
    pub lexeme: Seq<char>,
    pub column: usize,
}

impl View for TokenType {
    type V = TokenTypeView;

    open spec fn view(&self) -> TokenTypeView {
        match self {
            TokenType::Number(value) => TokenTypeView::Number(*value),
            TokenType::Identifier(name) => TokenTypeView::Identifier(name@),
            TokenType::Star => TokenTypeView::Star,
            TokenType::Plus => TokenTypeView::Plus,
            TokenType::Slash => TokenTypeView::Slash,
            TokenType::Minus => TokenTypeView::Minus,
            TokenType::LeftParen => TokenTypeView::LeftParen,
            TokenType::RightParen => TokenTypeView::RightParen,
            TokenType::Equal => TokenTypeView::Equal,
            TokenType::Hat => TokenTypeView::Hat,
        }
    }
}

impl View for Token {
    type V = TokenView;

    open spec fn view(&self) -> TokenView {
        TokenView { token_type: self.token_type@, lexeme: self.lexeme@, column: self.column }
    }
}

/// The values of a run of tokens, in order.
pub open spec fn token_views(tokens: Seq<Token>) -> Seq<TokenView> {
    Seq::new(tokens.len(), |i: int| tokens[i]@)
}

impl Clone for TokenType {
    fn clone(&self) -> (copy: TokenType)
        ensures
            copy@ == self@,
    {
        match self {
            TokenType::Number(value) => TokenType::Number(value.clone()),
            TokenType::Identifier(name) => TokenType::Identifier(name.clone()),
            TokenType::Star => TokenType::Star,
            TokenType::Plus => TokenType::Plus,
            TokenType::Slash => TokenType::Slash,
            TokenType::Minus => TokenType::Minus,
            TokenType::LeftParen => TokenType::LeftParen,
            TokenType::RightParen => TokenType::RightParen,
            TokenType::Equal => TokenType::Equal,
            TokenType::Hat => TokenType::Hat,
        }
    }
}

impl Clone for Token {
    fn clone(&self) -> (copy: Token)
        ensures
            copy@ == self@,
    {
        Token {
            token_type: self.token_type.clone(),
            lexeme: self.lexeme.clone(),
            column: self.column,
        }
    }
}

impl Token {
    /// A token of the given kind, read from `lexeme` at `column`.
    pub fn new(token_type: TokenType, lexeme: String, column: usize) -> (token: Token)
        ensures
            token.token_type == token_type,
            token.lexeme == lexeme,
            token.column == column,
    {
        Token { token_type, lexeme, column }
    }
}


impl TokenTypeView {
    /// The kind in words: its name, and for an identifier the name it
    /// holds, in quotes and parentheses. The value of a number is left out.
    pub open spec fn text(self) -> Seq<char> {
        match self {
            TokenTypeView::Number(value) => "Number"@,
            TokenTypeView::Identifier(name) => "Identifier(\""@ + name + "\")"@,
            TokenTypeView::Star => "Star"@,
            TokenTypeView::Plus => "Plus"@,
            TokenTypeView::Slash => "Slash"@,
            TokenTypeView::Minus => "Minus"@,
            TokenTypeView::LeftParen => "LeftParen"@,
            TokenTypeView::RightParen => "RightParen"@,
            TokenTypeView::Equal => "Equal"@,
            TokenTypeView::Hat => "Hat"@,
        }
    }
}

impl TokenView {
    /// The token in words: its kind, its text in quotes and its column.
    pub open spec fn text(self) -> Seq<char> {
        "Token { token_type: "@ + self.token_type.text() + ", lexeme: \""@ + self.lexeme
            + "\", column: "@ + decimal(self.column as nat) + " }"@
    }
}

impl TokenType {
    /// The kind in words, as [`TokenTypeView::text`] states it.
    pub fn describe(&self) -> (text: String)
        ensures
            text@ == self@.text(),
    {
        match self {
            TokenType::Number(value) => "Number".to_owned(),
            TokenType::Identifier(name) => {
                let mut text = "Identifier(\"".to_owned();
                text.append(name.as_str());
                text.append("\")");
                text
            },
            TokenType::Star => "Star".to_owned(),
            TokenType::Plus => "Plus".to_owned(),
            TokenType::Slash => "Slash".to_owned(),
            TokenType::Minus => "Minus".to_owned(),
            TokenType::LeftParen => "LeftParen".to_owned(),
            TokenType::RightParen => "RightParen".to_owned(),
            TokenType::Equal => "Equal".to_owned(),
            TokenType::Hat => "Hat".to_owned(),
        }
    }
}

impl Token {
    /// The token in words, as [`TokenView::text`] states it.
    pub fn describe(&self) -> (text: String)
        ensures
            text@ == self@.text(),
    {
        let mut text = "Token { token_type: ".to_owned();
        text.append(self.token_type.describe().as_str());
        text.append(", lexeme: \"");
        text.append(self.lexeme.as_str());
        text.append("\", column: ");
        text.append(decimal_text(self.column).as_str());
        text.append(" }");
        text
    }
}

} // verus!
