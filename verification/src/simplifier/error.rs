//! What a simplification fails with.
use vstd::prelude::*;
use vstd::string::*;

use crate::evaluator::{EvaluatorError, EvaluatorErrorView};
use crate::lexer::{LexerError, LexerErrorView};
use crate::tokenizer::TokenizerError;

verus! {

/// The failure of one stage, passed on unchanged.
#[derive(Debug, PartialEq)]
pub enum SimplifierError {
    /// The parser failed.
    LexerError(LexerError),
    /// The scanner failed.
    TokenizerError(TokenizerError),
    /// The evaluator failed.
    EvaluatorError(EvaluatorError),
}

pub type SimplifierResult<T> = Result<T, SimplifierError>;

/// The mathematical value of a [`SimplifierError`].
pub enum SimplifierErrorView {
    LexerError(LexerErrorView),
    TokenizerError(TokenizerError),
    EvaluatorError(EvaluatorErrorView),
}

impl View for SimplifierError {
    type V = SimplifierErrorView;

    open spec fn view(&self) -> SimplifierErrorView {
        match self {
            SimplifierError::LexerError(error) => SimplifierErrorView::LexerError(error@),
            SimplifierError::TokenizerError(error) => SimplifierErrorView::TokenizerError(*error),
            SimplifierError::EvaluatorError(error) => SimplifierErrorView::EvaluatorError(error@),
        }
    }
}


impl SimplifierErrorView {
    /// The failure in words: the stage, and the words of its failure.
    pub open spec fn text(self) -> Seq<char> {
        match self {
            SimplifierErrorView::TokenizerError(error) => "Syntax Error: "@ + error.text(),
            SimplifierErrorView::EvaluatorError(error) => "Evaluation Error: "@ + error.text(),
            SimplifierErrorView::LexerError(error) => "Lexer error: "@ + error.text(),
        }
    }
}

impl SimplifierError {
    /// The failure in words, as [`SimplifierErrorView::text`] states it.
    pub fn message(&self) -> (message: String)
        ensures
            message@ == self@.text(),
    {
        match self {
            SimplifierError::TokenizerError(error) => {
                let mut message = "Syntax Error: ".to_owned();
                message.append(error.message().as_str());
                message
            },
            SimplifierError::EvaluatorError(error) => {
                let mut message = "Evaluation Error: ".to_owned();
                message.append(error.message().as_str());
                message
            },
            SimplifierError::LexerError(error) => {
                let mut message = "Lexer error: ".to_owned();
                message.append(error.message().as_str());
                message
            },
        }
    }
}


impl From<TokenizerError> for SimplifierError {
    fn from(err: TokenizerError) -> (error: Self) {
        Self::TokenizerError(err)
    }
}

impl vstd::std_specs::convert::FromSpecImpl<TokenizerError> for SimplifierError {
    open spec fn obeys_from_spec() -> bool {
        true
    }

    open spec fn from_spec(err: TokenizerError) -> Self {
        SimplifierError::TokenizerError(err)
    }
}

impl From<EvaluatorError> for SimplifierError {
    fn from(err: EvaluatorError) -> (error: Self) {
        Self::EvaluatorError(err)
    }
}

impl vstd::std_specs::convert::FromSpecImpl<EvaluatorError> for SimplifierError {
    open spec fn obeys_from_spec() -> bool {
        true
    }

    open spec fn from_spec(err: EvaluatorError) -> Self {
        SimplifierError::EvaluatorError(err)
    }
}

impl From<LexerError> for SimplifierError {
    fn from(err: LexerError) -> (error: Self) {
        Self::LexerError(err)
    }
}

impl vstd::std_specs::convert::FromSpecImpl<LexerError> for SimplifierError {
    open spec fn obeys_from_spec() -> bool {
        true
    }

    open spec fn from_spec(err: LexerError) -> Self {
        SimplifierError::LexerError(err)
    }
}

} // verus!
