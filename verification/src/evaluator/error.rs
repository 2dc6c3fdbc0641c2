//! What the evaluator rejects.
use vstd::prelude::*;
use vstd::string::*;

use crate::text::{decimal, decimal_text};

use crate::tokenizer::{Token, TokenView};

verus! {

/// Why an expression has no linear value.
#[derive(Debug, PartialEq)]
pub enum EvaluatorErrorType {
    /// A division whose denominator holds a variable.
    VariableDivision { numerator: Token, denominator: Token },
    /// A product of two operands that both hold a variable.
    VariableMultiplication { left: Token, right: Token },
    /// A binary node whose operator is none of `+ - * / ^`.
    InvalidBinaryOperator,
    /// A power whose exponent is no constant.
    NonConstantExponent,
    /// A power whose base holds a variable.
    NonConstantBase,
}

pub type EvaluatorResult<T> = Result<T, EvaluatorError>;

/// A failure of the evaluator and the token it points at.
#[derive(Debug, PartialEq)]
pub struct EvaluatorError {
    pub error_type: EvaluatorErrorType,
    pub token: Token,
}

/// The mathematical value of an [`EvaluatorErrorType`].
pub enum EvaluatorErrorTypeView {
    VariableDivision { numerator: TokenView, denominator: TokenView },
    VariableMultiplication { left: TokenView, right: TokenView },
    InvalidBinaryOperator,
    NonConstantExponent,
    NonConstantBase,
}

/// The mathematical value of an [`EvaluatorError`].
pub struct EvaluatorErrorView {
    pub error_type: EvaluatorErrorTypeView,
    pub token: TokenView,
}

impl View for EvaluatorErrorType {
    type V = EvaluatorErrorTypeView;

    open spec fn view(&self) -> EvaluatorErrorTypeView {
        match self {
            EvaluatorErrorType::VariableDivision {
                numerator,
                denominator,
            } => EvaluatorErrorTypeView::VariableDivision {
                numerator: numerator@,
                denominator: denominator@,
            },
            EvaluatorErrorType::VariableMultiplication {
                left,
                right,
            } => EvaluatorErrorTypeView::VariableMultiplication { left: left@, right: right@ },
            EvaluatorErrorType::InvalidBinaryOperator => EvaluatorErrorTypeView::InvalidBinaryOperator,
            EvaluatorErrorType::NonConstantExponent => EvaluatorErrorTypeView::NonConstantExponent,
            EvaluatorErrorType::NonConstantBase => EvaluatorErrorTypeView::NonConstantBase,
        }
    }
}

impl View for EvaluatorError {
    type V = EvaluatorErrorView;

    open spec fn view(&self) -> EvaluatorErrorView {
        EvaluatorErrorView { error_type: self.error_type@, token: self.token@ }
    }
}


impl EvaluatorErrorView {
    /// The failure in words, with the column of the token it points at.
    pub open spec fn text(self) -> Seq<char> {
        let column = decimal(self.token.column as nat);
        match self.error_type {
            EvaluatorErrorTypeView::VariableDivision {
                numerator,
                denominator,
            } => "Cannot divide between a variable denominator. Column "@ + column,
            EvaluatorErrorTypeView::VariableMultiplication {
                left,
                right,
            } => "Cannot multiply a variable times another variable. Column "@ + column,
            EvaluatorErrorTypeView::InvalidBinaryOperator => "Token: "@ + self.token.text()
                + " is not a valid binary operator. Column "@ + column,
            EvaluatorErrorTypeView::NonConstantBase => "The base of an exponentiation operation may only be a constant. Found "@
                + self.token.text() + ", column "@ + column,
            EvaluatorErrorTypeView::NonConstantExponent => "The exponent of an exponentiation operation may only be a constant. Found "@
                + self.token.text() + " in column "@ + column,
        }
    }
}

impl EvaluatorError {
    /// The failure in words, as [`EvaluatorErrorView::text`] states it.
    pub fn message(&self) -> (message: String)
        ensures
            message@ == self@.text(),
    {
        let column = decimal_text(self.token.column);
        match &self.error_type {
            EvaluatorErrorType::VariableDivision { numerator, denominator } => {
                let mut message = "Cannot divide between a variable denominator. Column ".to_owned();
                message.append(column.as_str());
                message
            },
            EvaluatorErrorType::VariableMultiplication { left, right } => {
                let mut message =
                    "Cannot multiply a variable times another variable. Column ".to_owned();
                message.append(column.as_str());
                message
            },
            EvaluatorErrorType::InvalidBinaryOperator => {
                let mut message = "Token: ".to_owned();
                message.append(self.token.describe().as_str());
                message.append(" is not a valid binary operator. Column ");
                message.append(column.as_str());
                message
            },
            EvaluatorErrorType::NonConstantBase => {
                let mut message =
                    "The base of an exponentiation operation may only be a constant. Found ".to_owned();
                message.append(self.token.describe().as_str());
                message.append(", column ");
                message.append(column.as_str());
                message
            },
            EvaluatorErrorType::NonConstantExponent => {
                let mut message =
                    "The exponent of an exponentiation operation may only be a constant. Found ".to_owned();
                message.append(self.token.describe().as_str());
                message.append(" in column ");
                message.append(column.as_str());
                message
            },
        }
    }
}

} // verus!
