//! Expression trees: what the parser builds from one side of an equation.
use vstd::prelude::*;
use vstd::string::*;

use crate::number::Number;
use crate::tokenizer::{Token, TokenView};

verus! {

/// The shape of an expression node.
#[derive(Debug, PartialEq)]
pub enum ExpressionType {
    /// Two operands joined by an operator token.
    Binary { left: Box<Expression>, operator: Token, right: Box<Expression> },
    /// An expression in parentheses.
    Grouping(Box<Expression>),
    /// An expression behind a unary minus.
    Negation(Box<Expression>),
    /// A literal.
    Number(Number),
    /// A variable, by name.
    Variable(String),
    /// A call of a named function. Kept for later use: the parser builds
    /// none and the evaluator takes none.
    FunctionCall { name: String, parameter: Box<Expression> },
}

/// An expression node and the token that diagnostics about it point at.
#[derive(Debug, PartialEq)]
pub struct Expression {
    pub expression_type: ExpressionType,
    pub token: Token,
}

/// The mathematical value of an [`ExpressionType`].
pub enum ExpressionTypeView {
    Binary { left: Box<ExpressionView>, operator: TokenView, right: Box<ExpressionView> },
    Grouping(Box<ExpressionView>),
    Negation(Box<ExpressionView>),
    Number(Number),
    Variable(Seq<char>),
    FunctionCall { name: Seq<char>, parameter: Box<ExpressionView> },
}

/// The mathematical value of an [`Expression`].
pub struct ExpressionView {
    pub expression_type: ExpressionTypeView,
    pub token: TokenView,
}

/// The value of an expression tree: the same tree over token values.
pub open spec fn expression_view(expression: Expression) -> ExpressionView
    decreases expression,
{
    ExpressionView {
        expression_type: match expression.expression_type {
            ExpressionType::Binary { left, operator, right } => ExpressionTypeView::Binary {
                left: Box::new(expression_view(*left)),
                operator: operator@,
                right: Box::new(expression_view(*right)),
            },
            ExpressionType::Grouping(inner) => ExpressionTypeView::Grouping(
                Box::new(expression_view(*inner)),
            ),
            ExpressionType::Negation(inner) => ExpressionTypeView::Negation(
                Box::new(expression_view(*inner)),
            ),
            ExpressionType::Number(value) => ExpressionTypeView::Number(value),
            ExpressionType::Variable(name) => ExpressionTypeView::Variable(name@),
            ExpressionType::FunctionCall { name, parameter } => ExpressionTypeView::FunctionCall {
                name: name@,
                parameter: Box::new(expression_view(*parameter)),
            },
        },
        token: expression.token@,
    }
}

impl View for Expression {
    type V = ExpressionView;

    open spec fn view(&self) -> ExpressionView {
        expression_view(*self)
    }
}

impl ExpressionView {
    /// The tree written with one pair of parentheses for each inner node:
    /// `(operator left right)`, `(group inner)`, `(- inner)` and
    /// `(call name parameter)`. A variable is written as its name and a
    /// number as the text of its token.
    pub open spec fn text(self) -> Seq<char>
        decreases self,
    {
        match self.expression_type {
            ExpressionTypeView::Binary { left, operator, right } => "("@ + operator.lexeme + " "@
                + left.text() + " "@ + right.text() + ")"@,
            ExpressionTypeView::Grouping(inner) => "(group "@ + inner.text() + ")"@,
            ExpressionTypeView::Negation(inner) => "(- "@ + inner.text() + ")"@,
            ExpressionTypeView::Number(value) => self.token.lexeme,
            ExpressionTypeView::Variable(name) => name,
            ExpressionTypeView::FunctionCall { name, parameter } => "(call "@ + name + " "@
                + parameter.text() + ")"@,
        }
    }

    /// The number of nodes of the tree.
    pub open spec fn size(self) -> nat
        decreases self,
    {
        match self.expression_type {
            ExpressionTypeView::Binary { left, operator, right } => 1 + left.size()
                + right.size(),
            ExpressionTypeView::Grouping(inner) => 1 + inner.size(),
            ExpressionTypeView::Negation(inner) => 1 + inner.size(),
            ExpressionTypeView::Number(value) => 1,
            ExpressionTypeView::Variable(name) => 1,
            ExpressionTypeView::FunctionCall { name, parameter } => 1 + parameter.size(),
        }
    }

    /// Whether no node of the tree is a function call.
    pub open spec fn call_free(self) -> bool
        decreases self,
    {
        match self.expression_type {
            ExpressionTypeView::Binary { left, operator, right } => left.call_free()
                && right.call_free(),
            ExpressionTypeView::Grouping(inner) => inner.call_free(),
            ExpressionTypeView::Negation(inner) => inner.call_free(),
            ExpressionTypeView::Number(value) => true,
            ExpressionTypeView::Variable(name) => true,
            ExpressionTypeView::FunctionCall { name, parameter } => false,
        }
    }
}


impl Expression {
    /// The tree as text, as [`ExpressionView::text`] states it.
    pub fn to_text(&self) -> (text: String)
        ensures
            text@ == self@.text(),
        decreases self,
    {
        match &self.expression_type {
            ExpressionType::Binary { left, operator, right } => {
                let mut text = "(".to_owned();
                text.append(operator.lexeme.as_str());
                text.append(" ");
                let left_text = (&**left).to_text();
                text.append(left_text.as_str());
                text.append(" ");
                let right_text = (&**right).to_text();
                text.append(right_text.as_str());
                text.append(")");
                text
            },
            ExpressionType::Grouping(inner) => {
                let mut text = "(group ".to_owned();
                let inner_text = (&**inner).to_text();
                text.append(inner_text.as_str());
                text.append(")");
                text
            },
            ExpressionType::Negation(inner) => {
                let mut text = "(- ".to_owned();
                let inner_text = (&**inner).to_text();
                text.append(inner_text.as_str());
                text.append(")");
                text
            },
            ExpressionType::Number(value) => self.token.lexeme.clone(),
            ExpressionType::Variable(name) => name.clone(),
            ExpressionType::FunctionCall { name, parameter } => {
                let mut text = "(call ".to_owned();
                text.append(name.as_str());
                text.append(" ");
                let parameter_text = (&**parameter).to_text();
                text.append(parameter_text.as_str());
                text.append(")");
                text
            },
        }
    }
}

} // verus!
