//! What the parser rejects.
use vstd::prelude::*;
use vstd::string::*;

use crate::text::{decimal, decimal_text};
use crate::tokenizer::{TokenType, TokenTypeView, TokenizerError};

verus! {

/// A failure of the parser, with the column, counted from one, where it
/// happened: that of the token found, or the column behind the last token
/// where the input ends too early.
#[derive(Debug, PartialEq)]
pub enum LexerError {
    /// A failure of the scanner, passed on.
    TokenizerError(TokenizerError),
    /// A token other than the one the grammar requires here.
    WrongToken { found: TokenType, expected: TokenType, column: usize },
    /// The input ends where the grammar requires a token.
    ExpectedTokenFoundEof { expected: TokenType, column: usize },
    /// The input ends where an operand must start.
    UnexpectedEof { column: usize },
    /// Tokens are left behind a complete equation.
    ExpectedEof { found: TokenType, column: usize },
    /// A token that starts no operand where an operand must start.
    ExpectedPrimary { found: TokenType, column: usize },
    /// Behind `^`, something other than a number, a name or a group.
    InvalidExponent { found: TokenType, column: usize },
}

pub type LexerResult<T> = Result<T, LexerError>;

/// The mathematical value of a [`LexerError`].
pub enum LexerErrorView {
    TokenizerError(TokenizerError),
    WrongToken { found: TokenTypeView, expected: TokenTypeView, column: usize },
    ExpectedTokenFoundEof { expected: TokenTypeView, column: usize },
    UnexpectedEof { column: usize },
    ExpectedEof { found: TokenTypeView, column: usize },
    ExpectedPrimary { found: TokenTypeView, column: usize },
    InvalidExponent { found: TokenTypeView, column: usize },
}

impl View for LexerError {
    type V = LexerErrorView;

    open spec fn view(&self) -> LexerErrorView {
        match self {
            LexerError::TokenizerError(error) => LexerErrorView::TokenizerError(*error),
            LexerError::WrongToken { found, expected, column } => LexerErrorView::WrongToken {
                found: found@,
                expected: expected@,
                column: *column,
            },
            LexerError::ExpectedTokenFoundEof {
                expected,
                column,
            } => LexerErrorView::ExpectedTokenFoundEof { expected: expected@, column: *column },
            LexerError::UnexpectedEof { column } => LexerErrorView::UnexpectedEof {
                column: *column,
            },
            LexerError::ExpectedEof { found, column } => LexerErrorView::ExpectedEof {
                found: found@,
                column: *column,
            },
            LexerError::ExpectedPrimary { found, column } => LexerErrorView::ExpectedPrimary {
                found: found@,
                column: *column,
            },
            LexerError::InvalidExponent { found, column } => LexerErrorView::InvalidExponent {
                found: found@,
                column: *column,
            },
        }
    }
}

impl LexerErrorView {
    /// The column where the parser failed; that of the scanner's error for
    /// an error of the scanner.
    pub open spec fn column(self) -> usize {
        match self {
            LexerErrorView::TokenizerError(TokenizerError::UnknownCharacter(byte, column)) => column,
            LexerErrorView::TokenizerError(TokenizerError::NoUtf8(column)) => column,
            LexerErrorView::WrongToken { found, expected, column } => column,
            LexerErrorView::ExpectedTokenFoundEof { expected, column } => column,
            LexerErrorView::UnexpectedEof { column } => column,
            LexerErrorView::ExpectedEof { found, column } => column,
            LexerErrorView::ExpectedPrimary { found, column } => column,
            LexerErrorView::InvalidExponent { found, column } => column,
        }
    }

    /// The failure in words, ending with its column.
    pub open spec fn text(self) -> Seq<char> {
        match self {
            LexerErrorView::TokenizerError(error) => "Syntax Error: "@ + error.text(),
            LexerErrorView::WrongToken { found, expected, column } => "Expected token "@
                + expected.text() + ", but found "@ + found.text() + " instead. Column "@ + decimal(
                column as nat,
            ),
            LexerErrorView::ExpectedTokenFoundEof { expected, column } => "Expected token "@
                + expected.text() + ", but the input ended unexpectedly. Column "@ + decimal(
                column as nat,
            ),
            LexerErrorView::UnexpectedEof { column } => "Unexpected end of file. Column "@
                + decimal(column as nat),
            LexerErrorView::ExpectedEof { found, column } => "Expected EOF, found "@ + found.text()
                + " instead. Column "@ + decimal(column as nat),
            LexerErrorView::ExpectedPrimary {
                found,
                column,
            } => "Expected number, identifier or left parenthesis, but found "@ + found.text()
                + " instead. Column "@ + decimal(column as nat),
            LexerErrorView::InvalidExponent {
                found,
                column,
            } => "Expected number, identifier or left parenthesis as exponent, but found "@
                + found.text() + " instead. Column "@ + decimal(column as nat),
        }
    }
}

impl LexerError {
    /// The failure in words, as [`LexerErrorView::text`] states it.
    pub fn message(&self) -> (message: String)
        ensures
            message@ == self@.text(),
    {
        match self {
            LexerError::TokenizerError(error) => {
                let mut message = "Syntax Error: ".to_owned();
                message.append(error.message().as_str());
                message
            },
            LexerError::WrongToken { found, expected, column } => {
                let mut message = "Expected token ".to_owned();
                message.append(expected.describe().as_str());
                message.append(", but found ");
                message.append(found.describe().as_str());
                message.append(" instead. Column ");
                message.append(decimal_text(*column).as_str());
                message
            },
            LexerError::ExpectedTokenFoundEof { expected, column } => {
                let mut message = "Expected token ".to_owned();
                message.append(expected.describe().as_str());
                message.append(", but the input ended unexpectedly. Column ");
                message.append(decimal_text(*column).as_str());
                message
            },
            LexerError::UnexpectedEof { column } => {
                let mut message = "Unexpected end of file. Column ".to_owned();
                message.append(decimal_text(*column).as_str());
                message
            },
            LexerError::ExpectedEof { found, column } => {
                let mut message = "Expected EOF, found ".to_owned();
                message.append(found.describe().as_str());
                message.append(" instead. Column ");
                message.append(decimal_text(*column).as_str());
                message
            },
            LexerError::ExpectedPrimary { found, column } => {
                let mut message =
                    "Expected number, identifier or left parenthesis, but found ".to_owned();
                message.append(found.describe().as_str());
                message.append(" instead. Column ");
                message.append(decimal_text(*column).as_str());
                message
            },
            LexerError::InvalidExponent { found, column } => {
                let mut message =
                    "Expected number, identifier or left parenthesis as exponent, but found ".to_owned();
                message.append(found.describe().as_str());
                message.append(" instead. Column ");
                message.append(decimal_text(*column).as_str());
                message
            },
        }
    }
}

} // verus!
