//! What the scanner rejects.
use vstd::prelude::*;
use vstd::string::*;

use crate::text::{decimal, decimal_text};

verus! {

/// A failure of the scanner, with the column, counted from one, where it
/// happened.
#[derive(Debug, Clone, Copy, PartialEq, Eq, Structural)]
pub enum TokenizerError {
    /// A byte that starts no token.
    UnknownCharacter(u8, usize),
    /// Bytes gathered for a token that are not UTF-8.
    NoUtf8(usize),
}

pub type TokenizerResult<T> = Result<T, TokenizerError>;

impl TokenizerError {
    /// The failure in words, with the byte as a number and the column.
    pub open spec fn text(self) -> Seq<char> {
        match self {
            TokenizerError::UnknownCharacter(byte, column) => "Character "@ + decimal(byte as nat)
                + " is not recognized by the tokenizer in column "@ + decimal(column as nat),
            TokenizerError::NoUtf8(column) => "Input string contains non-UTF8 sequences in column "@
                + decimal(column as nat),
        }
    }

    /// The failure in words, as [`Self::text`] states it.
    pub fn message(&self) -> (message: String)
        ensures
            message@ == self.text(),
    {
        match self {
            TokenizerError::UnknownCharacter(byte, column) => {
                let mut message = "Character ".to_owned();
                message.append(decimal_text(*byte as usize).as_str());
                message.append(" is not recognized by the tokenizer in column ");
                message.append(decimal_text(*column).as_str());
                message
            },
            TokenizerError::NoUtf8(column) => {
                let mut message = "Input string contains non-UTF8 sequences in column ".to_owned();
                message.append(decimal_text(*column).as_str());
                message
            },
        }
    }
}

} // verus!
