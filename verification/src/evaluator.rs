//! The evaluator: expression trees to algebraic values.
//!
//! [`evaluate`] says what every tree reduces to. Sums and differences are
//! those of [`ValueView::plus`] and [`ValueView::minus`]; products and
//! quotients distribute over sums pair by pair ([`combine_lists`]) and fail
//! where a pair would leave the linear values; powers take constants only.
//! Like terms are not collected here.
//!
//! A product or quotient of two sums has one element for each pair of their
//! elements, so the size of a value grows with the product of the sizes of
//! the sums that are multiplied or divided, and the cost with it: nested
//! products of long sums are expensive, and nothing here shortens them.
use vstd::prelude::*;

pub mod error;
pub mod value;

pub use error::{
    EvaluatorError, EvaluatorErrorType, EvaluatorErrorTypeView, EvaluatorErrorView,
    EvaluatorResult,
};
pub use value::{Value, ValueView, value_views};

use crate::expression::{Expression, ExpressionType, ExpressionTypeView, ExpressionView};
use crate::number::Number;
use crate::tokenizer::{Token, TokenType, TokenTypeView, TokenView};
use value::{
    clone_name, deepest, lemma_as_list_depth, lemma_deepest_bounds, lemma_negate_sum,
    lemma_sum_view, monomials_only, name_view,
};

verus! {

/// The two operations that distribute over sums.
#[derive(Debug, Clone, Copy, PartialEq, Eq, Structural)]
pub enum Operation {
    /// Multiplication.
    Times,
    /// Division.
    Over,
}

/// `left` and `right` under the operation.
pub open spec fn apply(operation: Operation, left: Number, right: Number) -> Number {
    match operation {
        Operation::Times => Number::product(left, right),
        Operation::Over => Number::quotient(left, right),
    }
}

/// Two monomials of a pair under the operation: nothing where both hold a
/// variable; else the coefficients under the operation, with the variable
/// of the one that holds one.
pub open spec fn merge(
    operation: Operation,
    left_coefficient: Number,
    left_variable: Option<Seq<char>>,
    right_coefficient: Number,
    right_variable: Option<Seq<char>>,
) -> Option<ValueView> {
    if left_variable is Some && right_variable is Some {
        None
    } else {
        Some(
            ValueView::Monomial {
                coefficient: apply(operation, left_coefficient, right_coefficient),
                variable: if left_variable is Some {
                    left_variable
                } else {
                    right_variable
                },
            },
        )
    }
}

/// A sum of `values`, where there are any.
pub open spec fn sum_of(values: Option<Seq<ValueView>>) -> Option<ValueView> {
    match values {
        Some(list) => Some(ValueView::Sum(list)),
        None => None,
    }
}

/// One pair under the operation. Two monomials are merged; any other pair
/// is the sum of the pairs of their elements, a monomial counting as a
/// list of one.
pub open spec fn combine(operation: Operation, left: ValueView, right: ValueView) -> Option<
    ValueView,
>
    decreases left.depth() + right.depth(), 0nat, 0nat,
{
    match (left, right) {
        (
            ValueView::Monomial { coefficient: c1, variable: v1 },
            ValueView::Monomial { coefficient: c2, variable: v2 },
        ) => merge(operation, c1, v1, c2, v2),
        _ => {
            proof {
                lemma_as_list_depth(left);
                lemma_as_list_depth(right);
            }
            sum_of(combine_lists(operation, left.as_list(), right.as_list()))
        },
    }
}

/// `left` paired with each of `rights`, in order; nothing where a pair
/// fails.
pub open spec fn combine_row(operation: Operation, left: ValueView, rights: Seq<ValueView>) -> Option<
    Seq<ValueView>,
>
    decreases left.depth() + deepest(rights), 1nat, rights.len(),
{
    if rights.len() == 0 {
        Some(Seq::empty())
    } else {
        match (
            combine_row(operation, left, rights.drop_last()),
            combine(operation, left, rights.last()),
        ) {
            (Some(earlier), Some(last)) => Some(earlier.push(last)),
            _ => None,
        }
    }
}

/// Every one of `lefts` paired with every one of `rights`: all the pairs of
/// the first left value, in the order of `rights`, come first, those of the
/// second next; nothing where a pair fails.
pub open spec fn combine_lists(
    operation: Operation,
    lefts: Seq<ValueView>,
    rights: Seq<ValueView>,
) -> Option<Seq<ValueView>>
    decreases deepest(lefts) + deepest(rights), 2nat, lefts.len(),
{
    if lefts.len() == 0 {
        Some(Seq::empty())
    } else {
        match (
            combine_lists(operation, lefts.drop_last(), rights),
            combine_row(operation, lefts.last(), rights),
        ) {
            (Some(earlier), Some(row)) => Some(earlier + row),
            _ => None,
        }
    }
}

/// `left * right`: nothing where two monomials that both hold a variable
/// meet.
pub open spec fn product_of(left: ValueView, right: ValueView) -> Option<ValueView> {
    combine(Operation::Times, left, right)
}

/// `left / right`. A monomial divided by a monomial is nothing where the
/// denominator holds a variable. Where either side is a sum, the division
/// is distributed pair by pair, over a sum in the denominator too.
pub open spec fn quotient_of(left: ValueView, right: ValueView) -> Option<ValueView> {
    match (left, right) {
        (
            ValueView::Monomial { coefficient: c1, variable: v1 },
            ValueView::Monomial { coefficient: c2, variable: v2 },
        ) => if v2 is Some {
            None
        } else {
            Some(ValueView::Monomial { coefficient: Number::quotient(c1, c2), variable: v1 })
        },
        _ => sum_of(combine_lists(Operation::Over, left.as_list(), right.as_list())),
    }
}

/// Whether `value` is a constant: a monomial without a variable.
pub open spec fn is_constant(value: ValueView) -> bool {
    value matches ValueView::Monomial { coefficient, variable: None }
}

/// Why `base ^ exponent` has no value, if it has none: a base that is no
/// constant, be it a monomial with a variable or a sum; else an exponent
/// that is no constant.
pub open spec fn power_failure(base: ValueView, exponent: ValueView) -> Option<
    EvaluatorErrorTypeView,
> {
    if !is_constant(base) {
        Some(EvaluatorErrorTypeView::NonConstantBase)
    } else if !is_constant(exponent) {
        Some(EvaluatorErrorTypeView::NonConstantExponent)
    } else {
        None
    }
}

/// One of `+ - * / ^`.
pub open spec fn is_binary_operator(token_type: TokenTypeView) -> bool {
    token_type is Plus || token_type is Minus || token_type is Star || token_type is Slash
        || token_type is Hat
}

/// The values `left` and `right` of two operands under the operator
/// `token_type`. An error points at the token of the left operand, but for
/// an exponent that is no constant, which points at the token of the right
/// one.
pub open spec fn operate(
    token_type: TokenTypeView,
    left: ValueView,
    right: ValueView,
    left_token: TokenView,
    right_token: TokenView,
) -> Result<ValueView, EvaluatorErrorView>
    recommends
        is_binary_operator(token_type),
{
    match token_type {
        TokenTypeView::Plus => Ok(left.plus(right)),
        TokenTypeView::Minus => Ok(left.minus(right)),
        TokenTypeView::Star => match product_of(left, right) {
            Some(value) => Ok(value),
            None => Err(
                EvaluatorErrorView {
                    error_type: EvaluatorErrorTypeView::VariableMultiplication {
                        left: left_token,
                        right: right_token,
                    },
                    token: left_token,
                },
            ),
        },
        TokenTypeView::Slash => match quotient_of(left, right) {
            Some(value) => Ok(value),
            None => Err(
                EvaluatorErrorView {
                    error_type: EvaluatorErrorTypeView::VariableDivision {
                        numerator: left_token,
                        denominator: right_token,
                    },
                    token: left_token,
                },
            ),
        },
        _ => match power_failure(left, right) {
            None => Ok(
                ValueView::constant(Number::power(left->coefficient, right->coefficient)),
            ),
            Some(EvaluatorErrorTypeView::NonConstantBase) => Err(
                EvaluatorErrorView {
                    error_type: EvaluatorErrorTypeView::NonConstantBase,
                    token: left_token,
                },
            ),
            Some(error_type) => Err(EvaluatorErrorView { error_type, token: right_token }),
        },
    }
}

/// The value of `left` and `right` under the operator `token_type`: the
/// error of the left operand, else that of the right one, else what
/// [`operate`] makes of their values.
pub open spec fn evaluate_binary(
    token_type: TokenTypeView,
    left: ExpressionView,
    right: ExpressionView,
) -> Result<ValueView, EvaluatorErrorView>
    decreases left.size() + right.size() + 1, 0nat,
{
    match evaluate(left) {
        Err(error) => Err(error),
        Ok(left_value) => match evaluate(right) {
            Err(error) => Err(error),
            Ok(right_value) => operate(token_type, left_value, right_value, left.token, right.token),
        },
    }
}

/// The value of an expression without function calls, or why it has none.
///
/// A number is a constant and a variable has the coefficient one. A
/// negation negates and a group changes nothing. A binary node whose
/// operator is none of `+ - * / ^` is an error that points at the operator,
/// whatever its operands are.
pub open spec fn evaluate(expression: ExpressionView) -> Result<ValueView, EvaluatorErrorView>
    decreases expression.size(), 1nat,
{
    match expression.expression_type {
        ExpressionTypeView::Number(value) => Ok(ValueView::constant(value)),
        ExpressionTypeView::Variable(name) => Ok(ValueView::monomial(Number::Integer(1), name)),
        ExpressionTypeView::Negation(inner) => match evaluate(*inner) {
            Ok(value) => Ok(value.negate()),
            Err(error) => Err(error),
        },
        ExpressionTypeView::Grouping(inner) => evaluate(*inner),
        ExpressionTypeView::Binary { left, operator, right } => if is_binary_operator(
            operator.token_type,
        ) {
            evaluate_binary(operator.token_type, *left, *right)
        } else {
            Err(
                EvaluatorErrorView {
                    error_type: EvaluatorErrorTypeView::InvalidBinaryOperator,
                    token: operator,
                },
            )
        },
        ExpressionTypeView::FunctionCall { name, parameter } => arbitrary(),
    }
}


/// A monomial paired with monomials gives monomials.
proof fn lemma_row_of_monomials(operation: Operation, left: ValueView, rights: Seq<ValueView>)
    requires
        left is Monomial,
        monomials_only(rights),
    ensures
        combine_row(operation, left, rights) matches Some(row) ==> monomials_only(row),
    decreases rights.len(),
{
    if rights.len() > 0 {
        assert(monomials_only(rights.drop_last())) by {
            assert forall|i: int| 0 <= i < rights.drop_last().len() implies (
            #[trigger] rights.drop_last()[i]) is Monomial by {
                assert(rights[i] is Monomial);
            }
        }
        lemma_row_of_monomials(operation, left, rights.drop_last());
        assert(rights[rights.len() - 1] is Monomial);
        if let Some(row) = combine_row(operation, left, rights) {
            let earlier = combine_row(operation, left, rights.drop_last())->0;
            let last = combine(operation, left, rights.last())->0;
            assert(last is Monomial);
            assert forall|i: int| 0 <= i < row.len() implies (#[trigger] row[i]) is Monomial by {
                if i < earlier.len() {
                    assert(earlier[i] is Monomial);
                }
            }
        }
    }
}

/// Monomials paired with monomials give monomials.
proof fn lemma_lists_of_monomials(
    operation: Operation,
    lefts: Seq<ValueView>,
    rights: Seq<ValueView>,
)
    requires
        monomials_only(lefts),
        monomials_only(rights),
    ensures
        combine_lists(operation, lefts, rights) matches Some(pairs) ==> monomials_only(pairs),
    decreases lefts.len(),
{
    if lefts.len() > 0 {
        assert(monomials_only(lefts.drop_last())) by {
            assert forall|i: int| 0 <= i < lefts.drop_last().len() implies (
            #[trigger] lefts.drop_last()[i]) is Monomial by {
                assert(lefts[i] is Monomial);
            }
        }
        lemma_lists_of_monomials(operation, lefts.drop_last(), rights);
        assert(lefts[lefts.len() - 1] is Monomial);
        lemma_row_of_monomials(operation, lefts.last(), rights);
        if let Some(pairs) = combine_lists(operation, lefts, rights) {
            let earlier = combine_lists(operation, lefts.drop_last(), rights)->0;
            let row = combine_row(operation, lefts.last(), rights)->0;
            assert forall|i: int| 0 <= i < pairs.len() implies (#[trigger] pairs[i]) is Monomial by {
                if i < earlier.len() {
                    assert(earlier[i] is Monomial);
                } else {
                    assert(row[i - earlier.len()] is Monomial);
                }
            }
        }
    }
}

/// The evaluator nests no sums: the value of every expression is a
/// monomial or a sum of monomials.
pub proof fn lemma_evaluate_is_flat(expression: ExpressionView)
    requires
        expression.call_free(),
    ensures
        evaluate(expression) matches Ok(value) ==> value.flat(),
    decreases expression,
{
    match expression.expression_type {
        ExpressionTypeView::Negation(inner) => {
            lemma_evaluate_is_flat(*inner);
            if let Ok(ValueView::Sum(values)) = evaluate(*inner) {
                lemma_negate_sum(values);
            }
        },
        ExpressionTypeView::Grouping(inner) => {
            lemma_evaluate_is_flat(*inner);
        },
        ExpressionTypeView::Binary { left, operator, right } => {
            lemma_evaluate_is_flat(*left);
            lemma_evaluate_is_flat(*right);
            if is_binary_operator(operator.token_type) {
                assert(evaluate(expression) == evaluate_binary(operator.token_type, *left, *right));
                if let Ok(l) = evaluate(*left) {
                    if let Ok(r) = evaluate(*right) {
                        if let ValueView::Sum(values) = r {
                            lemma_negate_sum(values);
                        }
                        assert(r.negate().flat());
                        lemma_lists_of_monomials(Operation::Times, l.as_list(), r.as_list());
                        lemma_lists_of_monomials(Operation::Over, l.as_list(), r.as_list());
                    }
                }
            }
        },
        _ => {},
    }
}

/// A row that fails on some of its first pairs fails as a whole.
proof fn lemma_row_fails(operation: Operation, left: ValueView, rights: Seq<ValueView>, count: int)
    requires
        0 <= count <= rights.len(),
        combine_row(operation, left, rights.take(count)) is None,
    ensures
        combine_row(operation, left, rights) is None,
    decreases rights.len() - count,
{
    if count == rights.len() {
        assert(rights.take(count) =~= rights);
    } else {
        assert(rights.take(count + 1).drop_last() =~= rights.take(count));
        lemma_row_fails(operation, left, rights, count + 1);
    }
}

/// Lists that fail on some of their first rows fail as a whole.
proof fn lemma_lists_fail(
    operation: Operation,
    lefts: Seq<ValueView>,
    rights: Seq<ValueView>,
    count: int,
)
    requires
        0 <= count <= lefts.len(),
        combine_lists(operation, lefts.take(count), rights) is None,
    ensures
        combine_lists(operation, lefts, rights) is None,
    decreases lefts.len() - count,
{
    if count == lefts.len() {
        assert(lefts.take(count) =~= lefts);
    } else {
        assert(lefts.take(count + 1).drop_last() =~= lefts.take(count));
        lemma_lists_fail(operation, lefts, rights, count + 1);
    }
}

/// What an optional value stands for.
pub open spec fn optional_view(value: Option<Value>) -> Option<ValueView> {
    match value {
        Some(inner) => Some(inner@),
        None => None,
    }
}

/// What an optional list of values stands for.
pub open spec fn optional_views(values: Option<Vec<Value>>) -> Option<Seq<ValueView>> {
    match values {
        Some(list) => Some(value_views(list@)),
        None => None,
    }
}

/// What the result of an evaluation stands for: the value of the value,
/// or the value of the error.
pub open spec fn outcome(result: EvaluatorResult<Value>) -> Result<ValueView, EvaluatorErrorView> {
    match result {
        Ok(value) => Ok(value@),
        Err(error) => Err(error@),
    }
}

/// A copy of a monomial.
fn clone_monomial(coefficient: &Number, variable: &Option<String>) -> (copy: Value)
    ensures
        copy@ == (ValueView::Monomial { coefficient: *coefficient, variable: name_view(*variable) }),
{
    Value::Monomial { coefficient: coefficient.clone(), variable: clone_name(variable) }
}

/// The two coefficients under the operation.
fn apply_to(operation: Operation, left: Number, right: Number) -> (result: Number)
    ensures
        result == apply(operation, left, right),
{
    match operation {
        Operation::Times => left.times(right),
        Operation::Over => left.over(right),
    }
}

/// Two monomials of a pair under the operation, as [`merge`] states it.
fn merge_monomials(
    operation: Operation,
    left_coefficient: &Number,
    left_variable: &Option<String>,
    right_coefficient: &Number,
    right_variable: &Option<String>,
) -> (result: Option<Value>)
    ensures
        optional_view(result) == merge(
            operation,
            *left_coefficient,
            name_view(*left_variable),
            *right_coefficient,
            name_view(*right_variable),
        ),
{
    match (left_variable, right_variable) {
        (Some(_), Some(_)) => None,
        (Some(name), None) => Some(
            Value::Monomial {
                coefficient: apply_to(operation, left_coefficient.clone(), right_coefficient.clone()),
                variable: Some(name.clone()),
            },
        ),
        (None, Some(name)) => Some(
            Value::Monomial {
                coefficient: apply_to(operation, left_coefficient.clone(), right_coefficient.clone()),
                variable: Some(name.clone()),
            },
        ),
        (None, None) => Some(
            Value::Monomial {
                coefficient: apply_to(operation, left_coefficient.clone(), right_coefficient.clone()),
                variable: None,
            },
        ),
    }
}

/// One pair under the operation, as [`combine`] states it.
fn combine_pair(operation: Operation, left: &Value, right: &Value) -> (result: Option<Value>)
    ensures
        optional_view(result) == combine(operation, left@, right@),
    decreases left@.depth() + right@.depth(), 0nat,
{
    proof {
        lemma_as_list_depth(left@);
        lemma_as_list_depth(right@);
    }
    match (left, right) {
        (
            Value::Monomial { coefficient: c1, variable: v1 },
            Value::Monomial { coefficient: c2, variable: v2 },
        ) => merge_monomials(operation, c1, v1, c2, v2),
        (Value::Monomial { coefficient, variable }, Value::Sum(list)) => {
            let mut single: Vec<Value> = Vec::new();
            single.push(clone_monomial(coefficient, variable));
            proof {
                lemma_sum_view(*list);
                assert(value_views(single@) =~= left@.as_list());
            }
            match combine_values(operation, &single, list) {
                Some(values) => {
                    proof {
                        lemma_sum_view(values);
                    }
                    Some(Value::Sum(values))
                },
                None => None,
            }
        },
        (Value::Sum(list), Value::Monomial { coefficient, variable }) => {
            let mut single: Vec<Value> = Vec::new();
            single.push(clone_monomial(coefficient, variable));
            proof {
                lemma_sum_view(*list);
                assert(value_views(single@) =~= right@.as_list());
            }
            match combine_values(operation, list, &single) {
                Some(values) => {
                    proof {
                        lemma_sum_view(values);
                    }
                    Some(Value::Sum(values))
                },
                None => None,
            }
        },
        (Value::Sum(left_list), Value::Sum(right_list)) => {
            proof {
                lemma_sum_view(*left_list);
                lemma_sum_view(*right_list);
            }
            match combine_values(operation, left_list, right_list) {
                Some(values) => {
                    proof {
                        lemma_sum_view(values);
                    }
                    Some(Value::Sum(values))
                },
                None => None,
            }
        },
    }
}

/// Every one of `left` paired with every one of `right`, as
/// [`combine_lists`] states it.
fn combine_values(operation: Operation, left: &Vec<Value>, right: &Vec<Value>) -> (result: Option<
    Vec<Value>,
>)
    ensures
        optional_views(result) == combine_lists(operation, value_views(left@), value_views(right@)),
    decreases deepest(value_views(left@)) + deepest(value_views(right@)), 2nat,
{
    let ghost lefts = value_views(left@);
    let ghost rights = value_views(right@);
    let mut result: Vec<Value> = Vec::new();
    let mut i: usize = 0;
    assert(lefts.take(0) =~= Seq::<ValueView>::empty());
    assert(value_views(result@) =~= Seq::<ValueView>::empty());
    while i < left.len()
        invariant
            lefts == value_views(left@),
            rights == value_views(right@),
            i <= left.len(),
            combine_lists(operation, lefts.take(i as int), rights) == Some(value_views(result@)),
        decreases left.len() - i,
    {
        let ghost before = value_views(result@);
        let ghost mut row: Seq<ValueView> = Seq::empty();
        let mut j: usize = 0;
        proof {
            assert(rights.take(0) =~= Seq::<ValueView>::empty());
            assert(before + row =~= before);
            assert(lefts.take(i + 1).drop_last() =~= lefts.take(i as int));
        }
        while j < right.len()
            invariant
                lefts == value_views(left@),
                rights == value_views(right@),
                i < left.len(),
                j <= right.len(),
                combine_lists(operation, lefts.take(i as int), rights) == Some(before),
                lefts.take(i + 1).drop_last() == lefts.take(i as int),
                combine_row(operation, lefts[i as int], rights.take(j as int)) == Some(row),
                value_views(result@) == before + row,
            decreases right.len() - j,
        {
            proof {
                lemma_deepest_bounds(lefts, i as int);
                lemma_deepest_bounds(rights, j as int);
                assert(rights.take(j + 1).drop_last() =~= rights.take(j as int));
            }
            match combine_pair(operation, &left[i], &right[j]) {
                None => {
                    proof {
                        lemma_row_fails(operation, lefts[i as int], rights, j + 1);
                        lemma_lists_fail(operation, lefts, rights, i + 1);
                    }
                    return None;
                },
                Some(value) => {
                    proof {
                        row = row.push(value@);
                    }
                    let ghost earlier = value_views(result@);
                    result.push(value);
                    proof {
                        assert(value_views(result@) =~= earlier.push(value@));
                        assert(value_views(result@) =~= before + row);
                    }
                },
            }
            j = j + 1;
        }
        proof {
            assert(rights.take(j as int) =~= rights);
        }
        i = i + 1;
    }
    proof {
        assert(lefts.take(i as int) =~= lefts);
    }
    Some(result)
}

/// The elements of a sum; a monomial alone.
fn into_list(value: Value) -> (list: Vec<Value>)
    ensures
        value_views(list@) == value@.as_list(),
{
    match value {
        Value::Sum(values) => {
            proof {
                lemma_sum_view(values);
            }
            values
        },
        Value::Monomial { coefficient, variable } => {
            let single = Value::Monomial { coefficient, variable };
            let ghost view = single@;
            let mut list: Vec<Value> = Vec::new();
            list.push(single);
            proof {
                assert(value_views(list@) =~= seq![view]);
            }
            list
        },
    }
}

/// The evaluator. It holds no state: every call stands alone.
pub struct Evaluator();

impl Evaluator {
    /// An evaluator.
    pub fn new() -> Self {
        Evaluator()
    }

    /// The value of `expression`, as [`evaluate`] states it, or the reason
    /// why it has none. The expression holds no function call: the parser
    /// builds none.
    pub fn evaluate_expression(&self, expression: &Expression) -> (result: EvaluatorResult<Value>)
        requires
            expression@.call_free(),
        ensures
            outcome(result) == evaluate(expression@),
        decreases expression@.size(), 1nat,
    {
        match &expression.expression_type {
            ExpressionType::Number(value) => Ok(Value::new_constant(value.clone())),
            ExpressionType::Negation(inner) => match self.evaluate_expression(&**inner) {
                Ok(value) => Ok(value.negate()),
                Err(error) => Err(error),
            },
            ExpressionType::Variable(name) => Ok(
                Value::new_monomial(Number::Integer(1), name.clone()),
            ),
            ExpressionType::Grouping(inner) => self.evaluate_expression(&**inner),
            ExpressionType::Binary { left, operator, right } => match &operator.token_type {
                TokenType::Plus => self.evaluate_addition(&**left, &**right),
                TokenType::Minus => self.evaluate_subtraction(&**left, &**right),
                TokenType::Star => self.evaluate_multiplication(&**left, &**right),
                TokenType::Slash => self.evaluate_division(&**left, &**right),
                TokenType::Hat => self.evaluate_exponent(&**left, &**right),
                _ => Err(
                    EvaluatorError {
                        error_type: EvaluatorErrorType::InvalidBinaryOperator,
                        token: operator.clone(),
                    },
                ),
            },
            ExpressionType::FunctionCall { name, parameter } => unreached(),
        }
    }

    fn evaluate_exponent(&self, left: &Expression, exponent: &Expression) -> (result:
        EvaluatorResult<Value>)
        requires
            left@.call_free(),
            exponent@.call_free(),
        ensures
            outcome(result) == evaluate_binary(TokenTypeView::Hat, left@, exponent@),
        decreases left@.size() + exponent@.size() + 1, 0nat,
    {
        let left_result = match self.evaluate_expression(left) {
            Ok(value) => value,
            Err(error) => {
                return Err(error);
            },
        };
        let exponent_value = match self.evaluate_expression(exponent) {
            Ok(value) => value,
            Err(error) => {
                return Err(error);
            },
        };
        let base = match left_result {
            Value::Monomial { coefficient, variable: None } => coefficient,
            _ => {
                return Err(
                    EvaluatorError {
                        error_type: EvaluatorErrorType::NonConstantBase,
                        token: left.token.clone(),
                    },
                );
            },
        };
        match exponent_value {
            Value::Monomial { coefficient, variable: None } => Ok(
                Value::new_constant(base.raised_to(coefficient)),
            ),
            _ => Err(
                EvaluatorError {
                    error_type: EvaluatorErrorType::NonConstantExponent,
                    token: exponent.token.clone(),
                },
            ),
        }
    }

    fn evaluate_addition(&self, left: &Expression, right: &Expression) -> (result: EvaluatorResult<
        Value,
    >)
        requires
            left@.call_free(),
            right@.call_free(),
        ensures
            outcome(result) == evaluate_binary(TokenTypeView::Plus, left@, right@),
        decreases left@.size() + right@.size() + 1, 0nat,
    {
        let left = match self.evaluate_expression(left) {
            Ok(value) => value,
            Err(error) => {
                return Err(error);
            },
        };
        let right = match self.evaluate_expression(right) {
            Ok(value) => value,
            Err(error) => {
                return Err(error);
            },
        };
        Ok(left.plus(right))
    }

    fn evaluate_subtraction(&self, left: &Expression, right: &Expression) -> (result:
        EvaluatorResult<Value>)
        requires
            left@.call_free(),
            right@.call_free(),
        ensures
            outcome(result) == evaluate_binary(TokenTypeView::Minus, left@, right@),
        decreases left@.size() + right@.size() + 1, 0nat,
    {
        let left = match self.evaluate_expression(left) {
            Ok(value) => value,
            Err(error) => {
                return Err(error);
            },
        };
        let right = match self.evaluate_expression(right) {
            Ok(value) => value,
            Err(error) => {
                return Err(error);
            },
        };
        Ok(left.plus(right.negate()))
    }

    fn evaluate_multiplication(&self, left: &Expression, right: &Expression) -> (result:
        EvaluatorResult<Value>)
        requires
            left@.call_free(),
            right@.call_free(),
        ensures
            outcome(result) == evaluate_binary(TokenTypeView::Star, left@, right@),
        decreases left@.size() + right@.size() + 1, 0nat,
    {
        let left_result = match self.evaluate_expression(left) {
            Ok(value) => value,
            Err(error) => {
                return Err(error);
            },
        };
        let right_result = match self.evaluate_expression(right) {
            Ok(value) => value,
            Err(error) => {
                return Err(error);
            },
        };
        match (left_result, right_result) {
            (
                Value::Monomial { coefficient: c1, variable: v1 },
                Value::Monomial { coefficient: c2, variable: v2 },
            ) => match merge_monomials(Operation::Times, &c1, &v1, &c2, &v2) {
                Some(value) => Ok(value),
                None => Err(
                    EvaluatorError {
                        error_type: EvaluatorErrorType::VariableMultiplication {
                            left: left.token.clone(),
                            right: right.token.clone(),
                        },
                        token: left.token.clone(),
                    },
                ),
            },
            (value_a, value_b) => {
                let left_values = into_list(value_a);
                let right_values = into_list(value_b);
                match self.evaluate_multiplication_values(
                    &left_values,
                    &right_values,
                    &left.token,
                    &right.token,
                ) {
                    Ok(values) => {
                        proof {
                            lemma_sum_view(values);
                        }
                        Ok(Value::Sum(values))
                    },
                    Err(error) => Err(error),
                }
            },
        }
    }

    fn evaluate_multiplication_values(
        &self,
        left: &Vec<Value>,
        right: &Vec<Value>,
        left_token: &Token,
        right_token: &Token,
    ) -> (result: EvaluatorResult<Vec<Value>>)
        ensures
            match combine_lists(Operation::Times, value_views(left@), value_views(right@)) {
                Some(values) => result matches Ok(list) && value_views(list@) == values,
                None => result matches Err(error) && error@ == (EvaluatorErrorView {
                    error_type: EvaluatorErrorTypeView::VariableMultiplication {
                        left: left_token@,
                        right: right_token@,
                    },
                    token: left_token@,
                }),
            },
    {
        match combine_values(Operation::Times, left, right) {
            Some(values) => Ok(values),
            None => Err(
                EvaluatorError {
                    error_type: EvaluatorErrorType::VariableMultiplication {
                        left: left_token.clone(),
                        right: right_token.clone(),
                    },
                    token: left_token.clone(),
                },
            ),
        }
    }

    fn evaluate_division(&self, left: &Expression, right: &Expression) -> (result: EvaluatorResult<
        Value,
    >)
        requires
            left@.call_free(),
            right@.call_free(),
        ensures
            outcome(result) == evaluate_binary(TokenTypeView::Slash, left@, right@),
        decreases left@.size() + right@.size() + 1, 0nat,
    {
        let left_result = match self.evaluate_expression(left) {
            Ok(value) => value,
            Err(error) => {
                return Err(error);
            },
        };
        let right_result = match self.evaluate_expression(right) {
            Ok(value) => value,
            Err(error) => {
                return Err(error);
            },
        };
        match (left_result, right_result) {
            (
                Value::Monomial { coefficient: c1, variable: v1 },
                Value::Monomial { coefficient: c2, variable: v2 },
            ) => match v2 {
                Some(_) => Err(
                    EvaluatorError {
                        error_type: EvaluatorErrorType::VariableDivision {
                            numerator: left.token.clone(),
                            denominator: right.token.clone(),
                        },
                        token: left.token.clone(),
                    },
                ),
                None => Ok(Value::Monomial { coefficient: c1.over(c2), variable: v1 }),
            },
            (value_a, value_b) => {
                let left_values = into_list(value_a);
                let right_values = into_list(value_b);
                match self.evaluate_division_values(
                    &left_values,
                    &right_values,
                    &left.token,
                    &right.token,
                ) {
                    Ok(values) => {
                        proof {
                            lemma_sum_view(values);
                        }
                        Ok(Value::Sum(values))
                    },
                    Err(error) => Err(error),
                }
            },
        }
    }

    fn evaluate_division_values(
        &self,
        left: &Vec<Value>,
        right: &Vec<Value>,
        left_token: &Token,
        right_token: &Token,
    ) -> (result: EvaluatorResult<Vec<Value>>)
        ensures
            match combine_lists(Operation::Over, value_views(left@), value_views(right@)) {
                Some(values) => result matches Ok(list) && value_views(list@) == values,
                None => result matches Err(error) && error@ == (EvaluatorErrorView {
                    error_type: EvaluatorErrorTypeView::VariableDivision {
                        numerator: left_token@,
                        denominator: right_token@,
                    },
                    token: left_token@,
                }),
            },
    {
        match combine_values(Operation::Over, left, right) {
            Some(values) => Ok(values),
            None => Err(
                EvaluatorError {
                    error_type: EvaluatorErrorType::VariableDivision {
                        numerator: left_token.clone(),
                        denominator: right_token.clone(),
                    },
                    token: left_token.clone(),
                },
            ),
        }
    }
}

} // verus!
