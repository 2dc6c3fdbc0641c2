//! The exact reading of numbers, expressions, values and canonical
//! equations, and what the stages keep of it.
//!
//! A [`Number`] read in the real numbers is the result of its operations
//! carried out exactly; a variable stands for the real number that an
//! assignment gives it. The laws of this module compare the reading of an
//! expression with that of its value and of the canonical equation. They
//! are laws of exact arithmetic: a caller that folds numbers in floating
//! point gets them up to rounding only.
use vstd::prelude::*;

use crate::evaluator::value::{deepest, lemma_as_list_depth, lemma_negate_sum, negate_all};
use crate::evaluator::{
    combine, combine_lists, combine_row, evaluate, evaluate_binary, is_binary_operator, merge,
    operate, power_failure, quotient_of, Operation, ValueView,
};
use crate::expression::{ExpressionTypeView, ExpressionView};
use crate::lexer::{lemma_equation_call_free, parse_equation, EquationView};
use crate::number::Number;
use crate::simplifier::{
    canonical_of, distinct_names, lemma_terms_map, sign_of, simplify, terms_map, CanonicalView,
};
use crate::tokenizer::{tokens_of, TokenTypeView};

verus! {

/// What raising to a power means. The laws hold whatever it means.
pub type Power = spec_fn(real, real) -> real;

/// The real number that each variable stands for.
pub type Assignment = spec_fn(Seq<char>) -> real;

/// Ten to the power `count`.
pub open spec fn ten_to(count: nat) -> real
    decreases count,
{
    if count == 0 {
        1 as real
    } else {
        ten_to((count - 1) as nat) * (10 as real)
    }
}

/// The real number that `number` stands for.
pub open spec fn number_value(number: Number, power: Power) -> real
    decreases number,
{
    match number {
        Number::Integer(value) => value as real,
        Number::TenToMinus(count) => (1 as real) / ten_to(count as nat),
        Number::Negated(inner) => -number_value(*inner, power),
        Number::Plus(left, right) => number_value(*left, power) + number_value(*right, power),
        Number::Minus(left, right) => number_value(*left, power) - number_value(*right, power),
        Number::Times(left, right) => number_value(*left, power) * number_value(*right, power),
        Number::Over(left, right) => number_value(*left, power) / number_value(*right, power),
        Number::RaisedTo(left, right) => power(
            number_value(*left, power),
            number_value(*right, power),
        ),
    }
}

/// What a variable, or the lack of one, multiplies a coefficient with.
pub open spec fn variable_value(variable: Option<Seq<char>>, at: Assignment) -> real {
    match variable {
        Some(name) => at(name),
        None => 1 as real,
    }
}

/// The real number that `value` stands for under the assignment `at`.
pub open spec fn value_of(value: ValueView, at: Assignment, power: Power) -> real
    decreases value,
{
    match value {
        ValueView::Monomial { coefficient, variable } => number_value(coefficient, power)
            * variable_value(variable, at),
        ValueView::Sum(values) => total_of(values, at, power),
    }
}

/// The sum of what `values` stand for.
pub open spec fn total_of(values: Seq<ValueView>, at: Assignment, power: Power) -> real
    decreases values,
{
    if values.len() == 0 {
        0 as real
    } else {
        total_of(values.drop_last(), at, power) + value_of(values.last(), at, power)
    }
}

/// The real number that `expression` stands for under the assignment `at`.
/// A function call, and a binary node whose operator is none of
/// `+ - * / ^`, stand for zero.
pub open spec fn expression_value(expression: ExpressionView, at: Assignment, power: Power) -> real
    decreases expression,
{
    match expression.expression_type {
        ExpressionTypeView::Number(value) => number_value(value, power),
        ExpressionTypeView::Variable(name) => at(name),
        ExpressionTypeView::Negation(inner) => -expression_value(*inner, at, power),
        ExpressionTypeView::Grouping(inner) => expression_value(*inner, at, power),
        ExpressionTypeView::Binary { left, operator, right } => {
            let l = expression_value(*left, at, power);
            let r = expression_value(*right, at, power);
            match operator.token_type {
                TokenTypeView::Plus => l + r,
                TokenTypeView::Minus => l - r,
                TokenTypeView::Star => l * r,
                TokenTypeView::Slash => l / r,
                TokenTypeView::Hat => power(l, r),
                _ => 0 as real,
            }
        },
        ExpressionTypeView::FunctionCall { name, parameter } => 0 as real,
    }
}

/// A constant that is not zero.
pub open spec fn nonzero_constant(value: ValueView, power: Power) -> bool {
    value matches ValueView::Monomial { coefficient, variable: None } && number_value(
        coefficient,
        power,
    ) != 0 as real
}

/// Whether every denominator in the expression has a constant value that is
/// not zero. The evaluator distributes a division over its denominator
/// too, which real division does not allow, and a division by zero has no
/// real value: on other expressions the value of an expression says
/// nothing of what it stands for.
pub open spec fn divides_by_constants(expression: ExpressionView, power: Power) -> bool
    decreases expression,
{
    match expression.expression_type {
        ExpressionTypeView::Number(value) => true,
        ExpressionTypeView::Variable(name) => true,
        ExpressionTypeView::Negation(inner) => divides_by_constants(*inner, power),
        ExpressionTypeView::Grouping(inner) => divides_by_constants(*inner, power),
        ExpressionTypeView::Binary { left, operator, right } => {
            &&& divides_by_constants(*left, power)
            &&& divides_by_constants(*right, power)
            &&& operator.token_type is Slash ==> (evaluate(*right) matches Ok(denominator)
                && nonzero_constant(denominator, power))
        },
        ExpressionTypeView::FunctionCall { name, parameter } => true,
    }
}

/// A sum joined to a sum stands for the sum of both.
pub proof fn lemma_total_of_joined(
    left: Seq<ValueView>,
    right: Seq<ValueView>,
    at: Assignment,
    power: Power,
)
    ensures
        total_of(left + right, at, power) == total_of(left, at, power) + total_of(right, at, power),
    decreases right.len(),
{
    if right.len() == 0 {
        assert(left + right =~= left);
    } else {
        assert((left + right).drop_last() =~= left + right.drop_last());
        lemma_total_of_joined(left, right.drop_last(), at, power);
    }
}

/// A sum with one more element stands for the sum plus the element.
pub proof fn lemma_total_of_push(
    values: Seq<ValueView>,
    last: ValueView,
    at: Assignment,
    power: Power,
)
    ensures
        total_of(values.push(last), at, power) == total_of(values, at, power) + value_of(
            last,
            at,
            power,
        ),
{
    assert(values.push(last).drop_last() =~= values);
}

/// A value alone stands for what it stands for in a list.
pub proof fn lemma_total_of_list(value: ValueView, at: Assignment, power: Power)
    ensures
        total_of(value.as_list(), at, power) == value_of(value, at, power),
{
    if value is Monomial {
        assert(value.as_list().drop_last() =~= Seq::<ValueView>::empty());
        assert(total_of(Seq::<ValueView>::empty(), at, power) == 0 as real);
    }
}

/// A negated value stands for the opposite.
pub proof fn lemma_negate_value(value: ValueView, at: Assignment, power: Power)
    ensures
        value_of(value.negate(), at, power) == -value_of(value, at, power),
    decreases value,
{
    match value {
        ValueView::Monomial { coefficient, variable } => {
            let c = number_value(coefficient, power);
            let x = variable_value(variable, at);
            assert((-c) * x == -(c * x)) by (nonlinear_arith);
        },
        ValueView::Sum(values) => {
            lemma_negate_sum(values);
            lemma_negate_all(values, at, power);
        },
    }
}

/// Negated values stand for the opposite of their sum.
pub proof fn lemma_negate_all(values: Seq<ValueView>, at: Assignment, power: Power)
    ensures
        total_of(negate_all(values), at, power) == -total_of(values, at, power),
    decreases values,
{
    if values.len() > 0 {
        assert(negate_all(values).drop_last() =~= negate_all(values.drop_last()));
        lemma_negate_all(values.drop_last(), at, power);
        lemma_negate_value(values.last(), at, power);
    }
}

/// A sum of two values stands for the sum of what they stand for.
pub proof fn lemma_plus_value(left: ValueView, right: ValueView, at: Assignment, power: Power)
    ensures
        value_of(left.plus(right), at, power) == value_of(left, at, power) + value_of(
            right,
            at,
            power,
        ),
{
    match (left, right) {
        (
            ValueView::Monomial { coefficient: c1, variable: v1 },
            ValueView::Monomial { coefficient: c2, variable: v2 },
        ) => {
            if v1 == v2 {
                let a = number_value(c1, power);
                let b = number_value(c2, power);
                let x = variable_value(v1, at);
                assert((a + b) * x == a * x + b * x) by (nonlinear_arith);
            } else {
                let pair = seq![left, right];
                assert(pair.drop_last() =~= seq![left]);
                assert(seq![left].drop_last() =~= Seq::<ValueView>::empty());
                assert(total_of(Seq::<ValueView>::empty(), at, power) == 0 as real);
                assert(total_of(seq![left], at, power) == value_of(left, at, power));
            }
        },
        (ValueView::Sum(values), ValueView::Monomial { coefficient, variable }) => {
            lemma_total_of_push(values, right, at, power);
        },
        (ValueView::Monomial { coefficient, variable }, ValueView::Sum(values)) => {
            lemma_total_of_push(values, left, at, power);
        },
        (ValueView::Sum(left_values), ValueView::Sum(right_values)) => {
            lemma_total_of_joined(left_values, right_values, at, power);
        },
    }
}


/// The product of two monomials of which at most one holds a variable
/// stands for the product of what they stand for.
proof fn lemma_merge_times(
    c1: Number,
    v1: Option<Seq<char>>,
    c2: Number,
    v2: Option<Seq<char>>,
    at: Assignment,
    power: Power,
)
    requires
        !(v1 is Some && v2 is Some),
    ensures
        value_of(merge(Operation::Times, c1, v1, c2, v2)->0, at, power) == (number_value(c1, power)
            * variable_value(v1, at)) * (number_value(c2, power) * variable_value(v2, at)),
{
    let a = number_value(c1, power);
    let b = number_value(c2, power);
    let x = variable_value(v1, at);
    let y = variable_value(v2, at);
    if v1 is Some {
        assert((a * b) * x == (a * x) * (b * (1 as real))) by (nonlinear_arith);
    } else {
        assert((a * b) * y == (a * (1 as real)) * (b * y)) by (nonlinear_arith);
    }
}

/// A product of two values stands for the product of what they stand for.
pub proof fn lemma_product_value(left: ValueView, right: ValueView, at: Assignment, power: Power)
    ensures
        combine(Operation::Times, left, right) matches Some(product) ==> value_of(
            product,
            at,
            power,
        ) == value_of(left, at, power) * value_of(right, at, power),
    decreases left.depth() + right.depth(), 0nat, 0nat,
{
    match (left, right) {
        (
            ValueView::Monomial { coefficient: c1, variable: v1 },
            ValueView::Monomial { coefficient: c2, variable: v2 },
        ) => {
            if !(v1 is Some && v2 is Some) {
                lemma_merge_times(c1, v1, c2, v2, at, power);
            }
        },
        _ => {
            lemma_as_list_depth(left);
            lemma_as_list_depth(right);
            lemma_total_of_list(left, at, power);
            lemma_total_of_list(right, at, power);
            lemma_lists_product_value(left.as_list(), right.as_list(), at, power);
        },
    }
}

proof fn lemma_row_product_value(
    left: ValueView,
    rights: Seq<ValueView>,
    at: Assignment,
    power: Power,
)
    ensures
        combine_row(Operation::Times, left, rights) matches Some(row) ==> total_of(row, at, power)
            == value_of(left, at, power) * total_of(rights, at, power),
    decreases left.depth() + deepest(rights), 1nat, rights.len(),
{
    let l = value_of(left, at, power);
    if rights.len() == 0 {
        assert(l * (0 as real) == 0 as real) by (nonlinear_arith);
    } else {
        lemma_row_product_value(left, rights.drop_last(), at, power);
        lemma_product_value(left, rights.last(), at, power);
        if let Some(row) = combine_row(Operation::Times, left, rights) {
            let earlier = combine_row(Operation::Times, left, rights.drop_last())->0;
            let last = combine(Operation::Times, left, rights.last())->0;
            lemma_total_of_push(earlier, last, at, power);
            let a = total_of(rights.drop_last(), at, power);
            let b = value_of(rights.last(), at, power);
            assert(l * a + l * b == l * (a + b)) by (nonlinear_arith);
        }
    }
}

proof fn lemma_lists_product_value(
    lefts: Seq<ValueView>,
    rights: Seq<ValueView>,
    at: Assignment,
    power: Power,
)
    ensures
        combine_lists(Operation::Times, lefts, rights) matches Some(products) ==> total_of(
            products,
            at,
            power,
        ) == total_of(lefts, at, power) * total_of(rights, at, power),
    decreases deepest(lefts) + deepest(rights), 2nat, lefts.len(),
{
    let r = total_of(rights, at, power);
    if lefts.len() == 0 {
        assert((0 as real) * r == 0 as real) by (nonlinear_arith);
    } else {
        lemma_lists_product_value(lefts.drop_last(), rights, at, power);
        lemma_row_product_value(lefts.last(), rights, at, power);
        if let Some(products) = combine_lists(Operation::Times, lefts, rights) {
            let earlier = combine_lists(Operation::Times, lefts.drop_last(), rights)->0;
            let row = combine_row(Operation::Times, lefts.last(), rights)->0;
            lemma_total_of_joined(earlier, row, at, power);
            let a = total_of(lefts.drop_last(), at, power);
            let b = value_of(lefts.last(), at, power);
            assert(a * r + b * r == (a + b) * r) by (nonlinear_arith);
        }
    }
}

/// A value divided by a constant that is not zero stands for what the
/// value stands for, divided by the constant.
proof fn lemma_pair_quotient_value(left: ValueView, right: ValueView, at: Assignment, power: Power)
    requires
        nonzero_constant(right, power),
    ensures
        combine(Operation::Over, left, right) matches Some(quotient) ==> value_of(
            quotient,
            at,
            power,
        ) == value_of(left, at, power) / value_of(right, at, power),
    decreases left.depth(), 0nat, 0nat,
{
    let d = number_value(right->coefficient, power);
    assert(value_of(right, at, power) == d) by {
        assert(d * (1 as real) == d) by (nonlinear_arith);
    }
    match left {
        ValueView::Monomial { coefficient, variable } => {
            let a = number_value(coefficient, power);
            let x = variable_value(variable, at);
            assert((a / d) * x == (a * x) / d) by (nonlinear_arith)
                requires
                    d != 0 as real,
            ;
        },
        ValueView::Sum(values) => {
            assert(right.as_list() == seq![right]);
            lemma_lists_quotient_value(values, right, at, power);
        },
    }
}

proof fn lemma_lists_quotient_value(
    lefts: Seq<ValueView>,
    right: ValueView,
    at: Assignment,
    power: Power,
)
    requires
        nonzero_constant(right, power),
    ensures
        combine_lists(Operation::Over, lefts, seq![right]) matches Some(quotients) ==> total_of(
            quotients,
            at,
            power,
        ) == total_of(lefts, at, power) / value_of(right, at, power),
    decreases deepest(lefts), 1nat, lefts.len(),
{
    let d = value_of(right, at, power);
    assert(d == number_value(right->coefficient, power)) by {
        let c = number_value(right->coefficient, power);
        assert(c * (1 as real) == c) by (nonlinear_arith);
    }
    if lefts.len() == 0 {
        assert((0 as real) / d == 0 as real) by (nonlinear_arith)
            requires
                d != 0 as real,
        ;
    } else {
        lemma_lists_quotient_value(lefts.drop_last(), right, at, power);
        lemma_pair_quotient_value(lefts.last(), right, at, power);
        let rights = seq![right];
        assert(rights.drop_last() =~= Seq::<ValueView>::empty());
        assert(rights.last() == right);
        assert(combine_row(Operation::Over, lefts.last(), rights.drop_last()) == Some(
            Seq::<ValueView>::empty(),
        ));
        if let Some(quotients) = combine_lists(Operation::Over, lefts, rights) {
            let earlier = combine_lists(Operation::Over, lefts.drop_last(), rights)->0;
            let row = combine_row(Operation::Over, lefts.last(), rights)->0;
            let last = combine(Operation::Over, lefts.last(), right)->0;
            assert(row =~= Seq::<ValueView>::empty().push(last));
            lemma_total_of_push(Seq::<ValueView>::empty(), last, at, power);
            assert(total_of(Seq::<ValueView>::empty(), at, power) == 0 as real);
            lemma_total_of_joined(earlier, row, at, power);
            let a = total_of(lefts.drop_last(), at, power);
            let b = value_of(lefts.last(), at, power);
            assert(a / d + b / d == (a + b) / d) by (nonlinear_arith)
                requires
                    d != 0 as real,
            ;
        }
    }
}

/// A quotient by a constant that is not zero stands for the quotient of
/// what the two values stand for.
pub proof fn lemma_quotient_value(left: ValueView, right: ValueView, at: Assignment, power: Power)
    requires
        nonzero_constant(right, power),
    ensures
        quotient_of(left, right) matches Some(quotient) ==> value_of(quotient, at, power)
            == value_of(left, at, power) / value_of(right, at, power),
{
    lemma_pair_quotient_value(left, right, at, power);
    if left is Sum {
        assert(right.as_list() == seq![right]);
        lemma_lists_quotient_value(left.as_list(), right, at, power);
    }
}

/// What the evaluator keeps: where every denominator of an expression is
/// a constant that is not zero, the value of the expression stands for the
/// same real number as the expression, under every assignment and for
/// every meaning of the power.
pub proof fn lemma_evaluate_keeps_value(expression: ExpressionView, at: Assignment, power: Power)
    requires
        expression.call_free(),
        divides_by_constants(expression, power),
    ensures
        evaluate(expression) matches Ok(value) ==> value_of(value, at, power) == expression_value(
            expression,
            at,
            power,
        ),
    decreases expression,
{
    match expression.expression_type {
        ExpressionTypeView::Number(value) => {
            let c = number_value(value, power);
            assert(c * (1 as real) == c) by (nonlinear_arith);
        },
        ExpressionTypeView::Variable(name) => {
            let x = at(name);
            assert((1 as real) * x == x) by (nonlinear_arith);
        },
        ExpressionTypeView::Negation(inner) => {
            lemma_evaluate_keeps_value(*inner, at, power);
            if let Ok(value) = evaluate(*inner) {
                lemma_negate_value(value, at, power);
            }
        },
        ExpressionTypeView::Grouping(inner) => {
            lemma_evaluate_keeps_value(*inner, at, power);
        },
        ExpressionTypeView::Binary { left, operator, right } => {
            lemma_evaluate_keeps_value(*left, at, power);
            lemma_evaluate_keeps_value(*right, at, power);
            if is_binary_operator(operator.token_type) {
                assert(evaluate(expression) == evaluate_binary(operator.token_type, *left, *right));
                if let Ok(l) = evaluate(*left) {
                    if let Ok(r) = evaluate(*right) {
                        assert(evaluate(expression) == operate(
                            operator.token_type,
                            l,
                            r,
                            left.token,
                            right.token,
                        ));
                        match operator.token_type {
                            TokenTypeView::Plus => {
                                lemma_plus_value(l, r, at, power);
                            },
                            TokenTypeView::Minus => {
                                lemma_negate_value(r, at, power);
                                lemma_plus_value(l, r.negate(), at, power);
                            },
                            TokenTypeView::Star => {
                                lemma_product_value(l, r, at, power);
                            },
                            TokenTypeView::Slash => {
                                lemma_quotient_value(l, r, at, power);
                            },
                            _ => {
                                if power_failure(l, r) is None {
                                    let a = number_value(l->coefficient, power);
                                    let b = number_value(r->coefficient, power);
                                    let p = power(a, b);
                                    assert(a * (1 as real) == a) by (nonlinear_arith);
                                    assert(b * (1 as real) == b) by (nonlinear_arith);
                                    assert(p * (1 as real) == p) by (nonlinear_arith);
                                }
                            },
                        }
                    }
                }
            }
        },
        ExpressionTypeView::FunctionCall { name, parameter } => {},
    }
}


/// The sum, over `names`, of the coefficient of each name times what the
/// name stands for.
pub open spec fn terms_total(
    canonical: CanonicalView,
    names: Seq<Seq<char>>,
    at: Assignment,
    power: Power,
) -> real
    decreases names.len(),
{
    if names.len() == 0 {
        0 as real
    } else {
        terms_total(canonical, names.drop_last(), at, power) + number_value(
            canonical.coefficient(names.last()),
            power,
        ) * at(names.last())
    }
}

/// What the left side of `terms + constant = 0` stands for, the terms
/// being those of `names`.
pub open spec fn canonical_total(
    canonical: CanonicalView,
    names: Seq<Seq<char>>,
    at: Assignment,
    power: Power,
) -> real {
    terms_total(canonical, names, at, power) + number_value(canonical.constant, power)
}

/// Whether `names` holds every variable that has a term.
pub open spec fn covers(names: Seq<Seq<char>>, canonical: CanonicalView) -> bool {
    forall|name: Seq<char>| #[trigger] canonical.terms.contains_key(name) ==> names.contains(name)
}

/// The sum of the constants in `value`, through sums of any depth.
pub open spec fn constants_of(value: ValueView, power: Power) -> real
    decreases value,
{
    match value {
        ValueView::Monomial { coefficient, variable: None } => number_value(coefficient, power),
        ValueView::Monomial { coefficient, variable: Some(name) } => 0 as real,
        ValueView::Sum(values) => constants_in(values, power),
    }
}

/// The sum of the constants in `values`.
pub open spec fn constants_in(values: Seq<ValueView>, power: Power) -> real
    decreases values,
{
    if values.len() == 0 {
        0 as real
    } else {
        constants_in(values.drop_last(), power) + constants_of(values.last(), power)
    }
}

/// The sum of the constants that a side of an equation holds inside a
/// sum: those that the fold subtracts where a constant that is a side of
/// its own is added.
pub open spec fn nested_constants(side: ValueView, power: Power) -> real {
    match side {
        ValueView::Monomial { coefficient, variable } => 0 as real,
        ValueView::Sum(values) => constants_in(values, power),
    }
}

proof fn lemma_empty_total(names: Seq<Seq<char>>, at: Assignment, power: Power)
    ensures
        terms_total(CanonicalView::empty(), names, at, power) == 0 as real,
    decreases names.len(),
{
    if names.len() > 0 {
        lemma_empty_total(names.drop_last(), at, power);
        let x = at(names.last());
        assert((0 as real) * x == 0 as real) by (nonlinear_arith);
    }
}

proof fn lemma_same_terms_total(
    first: CanonicalView,
    second: CanonicalView,
    names: Seq<Seq<char>>,
    at: Assignment,
    power: Power,
)
    requires
        first.terms == second.terms,
    ensures
        terms_total(first, names, at, power) == terms_total(second, names, at, power),
    decreases names.len(),
{
    if names.len() > 0 {
        lemma_same_terms_total(first, second, names.drop_last(), at, power);
    }
}

proof fn lemma_add_term_elsewhere(
    canonical: CanonicalView,
    name: Seq<char>,
    amount: Number,
    names: Seq<Seq<char>>,
    at: Assignment,
    power: Power,
)
    requires
        !names.contains(name),
    ensures
        terms_total(canonical.add_term(name, amount), names, at, power) == terms_total(
            canonical,
            names,
            at,
            power,
        ),
    decreases names.len(),
{
    if names.len() > 0 {
        assert(names[names.len() - 1] != name);
        assert forall|i: int| 0 <= i < names.drop_last().len() implies names.drop_last()[i]
            != name by {
            assert(names[i] != name);
        }
        lemma_add_term_elsewhere(canonical, name, amount, names.drop_last(), at, power);
    }
}

proof fn lemma_add_term_total(
    canonical: CanonicalView,
    name: Seq<char>,
    amount: Number,
    names: Seq<Seq<char>>,
    at: Assignment,
    power: Power,
)
    requires
        names.no_duplicates(),
        names.contains(name),
    ensures
        terms_total(canonical.add_term(name, amount), names, at, power) == terms_total(
            canonical,
            names,
            at,
            power,
        ) + number_value(amount, power) * at(name),
    decreases names.len(),
{
    let earlier = names.drop_last();
    let index = choose|i: int| 0 <= i < names.len() && names[i] == name;
    if names.last() == name {
        assert forall|i: int| 0 <= i < earlier.len() implies earlier[i] != name by {
            assert(names[i] != names[names.len() - 1]);
        }
        lemma_add_term_elsewhere(canonical, name, amount, earlier, at, power);
        let c = number_value(canonical.coefficient(name), power);
        let a = number_value(amount, power);
        let x = at(name);
        assert((c + a) * x == c * x + a * x) by (nonlinear_arith);
    } else {
        assert(earlier[index] == name);
        assert(earlier.no_duplicates());
        lemma_add_term_total(canonical, name, amount, earlier, at, power);
    }
}

/// What folding one element of a sum adds to the total: the element
/// counted with `multiply_by`, its constants counted against it.
proof fn lemma_fold_value_total(
    canonical: CanonicalView,
    value: ValueView,
    multiply_by: Number,
    names: Seq<Seq<char>>,
    at: Assignment,
    power: Power,
)
    requires
        names.no_duplicates(),
        covers(names, canonical.fold_value(value, multiply_by)),
    ensures
        covers(names, canonical),
        canonical_total(canonical.fold_value(value, multiply_by), names, at, power)
            == canonical_total(canonical, names, at, power) + number_value(multiply_by, power) * (
        value_of(value, at, power) - constants_of(value, power) - constants_of(value, power)),
    decreases value,
{
    let m = number_value(multiply_by, power);
    match value {
        ValueView::Monomial { coefficient, variable: Some(name) } => {
            let amount = Number::product(coefficient, multiply_by);
            let after = canonical.add_term(name, amount);
            assert(after.terms.contains_key(name));
            assert forall|other: Seq<char>| #[trigger]
                canonical.terms.contains_key(other) implies names.contains(other) by {
                assert(after.terms.contains_key(other));
            }
            assert(covers(names, canonical));
            assert(names.contains(name));
            lemma_add_term_total(canonical, name, amount, names, at, power);
            let c = number_value(coefficient, power);
            let x = at(name);
            assert((c * m) * x == m * (c * x - (0 as real) - (0 as real))) by (nonlinear_arith);
            assert(number_value(amount, power) == c * m);
            assert(value_of(value, at, power) == c * x);
            assert(constants_of(value, power) == 0 as real);
            assert(after == canonical.fold_value(value, multiply_by));
            assert(canonical_total(after, names, at, power) == canonical_total(canonical, names, at, power) + (c * m) * x);
        },
        ValueView::Monomial { coefficient, variable: None } => {
            let c = number_value(coefficient, power);
            assert(-(c * m) == m * (c * (1 as real) - c - c)) by (nonlinear_arith);
            let after = canonical.fold_value(value, multiply_by);
            assert(after.terms == canonical.terms);
            assert(covers(names, canonical));
            lemma_same_terms_total(canonical, after, names, at, power);
            assert(number_value(Number::product(coefficient, multiply_by), power) == c * m);
            assert(number_value(after.constant, power) == number_value(canonical.constant, power) - c * m);
        },
        ValueView::Sum(values) => {
            lemma_fold_values_total(canonical, values, multiply_by, names, at, power);
        },
    }
}

proof fn lemma_fold_values_total(
    canonical: CanonicalView,
    values: Seq<ValueView>,
    multiply_by: Number,
    names: Seq<Seq<char>>,
    at: Assignment,
    power: Power,
)
    requires
        names.no_duplicates(),
        covers(names, canonical.fold_values(values, multiply_by)),
    ensures
        covers(names, canonical),
        canonical_total(canonical.fold_values(values, multiply_by), names, at, power)
            == canonical_total(canonical, names, at, power) + number_value(multiply_by, power) * (
        total_of(values, at, power) - constants_in(values, power) - constants_in(values, power)),
    decreases values,
{
    let m = number_value(multiply_by, power);
    if values.len() == 0 {
        assert(m * ((0 as real) - (0 as real) - (0 as real)) == 0 as real) by (nonlinear_arith);
    } else {
        let earlier = canonical.fold_values(values.drop_last(), multiply_by);
        lemma_fold_value_total(earlier, values.last(), multiply_by, names, at, power);
        lemma_fold_values_total(canonical, values.drop_last(), multiply_by, names, at, power);
        let t1 = total_of(values.drop_last(), at, power);
        let c1 = constants_in(values.drop_last(), power);
        let t2 = value_of(values.last(), at, power);
        let c2 = constants_of(values.last(), power);
        assert(m * (t1 - c1 - c1) + m * (t2 - c2 - c2) == m * ((t1 + t2) - (c1 + c2) - (c1 + c2)))
            by (nonlinear_arith);
    }
}

/// What folding one side of an equation adds to the total: the side
/// counted with its sign, the constants inside its sum counted against it.
proof fn lemma_fold_side_total(
    canonical: CanonicalView,
    side: ValueView,
    left_side: bool,
    names: Seq<Seq<char>>,
    at: Assignment,
    power: Power,
)
    requires
        names.no_duplicates(),
        covers(names, canonical.fold_side(side, left_side)),
    ensures
        covers(names, canonical),
        canonical_total(canonical.fold_side(side, left_side), names, at, power) == canonical_total(
            canonical,
            names,
            at,
            power,
        ) + number_value(sign_of(left_side), power) * (value_of(side, at, power) - nested_constants(
            side,
            power,
        ) - nested_constants(side, power)),
{
    let s = number_value(sign_of(left_side), power);
    assert(s == 1 as real || s == -(1 as real));
    match side {
        ValueView::Monomial { coefficient, variable: Some(name) } => {
            let amount = Number::product(coefficient, sign_of(left_side));
            let after = canonical.add_term(name, amount);
            assert(after.terms.contains_key(name));
            assert forall|other: Seq<char>| #[trigger]
                canonical.terms.contains_key(other) implies names.contains(other) by {
                assert(after.terms.contains_key(other));
            }
            assert(covers(names, canonical));
            assert(names.contains(name));
            lemma_add_term_total(canonical, name, amount, names, at, power);
            let c = number_value(coefficient, power);
            let x = at(name);
            assert((c * s) * x == s * (c * x - (0 as real) - (0 as real))) by (nonlinear_arith);
            assert(number_value(amount, power) == c * s);
        },
        ValueView::Monomial { coefficient, variable: None } => {
            let after = canonical.fold_side(side, left_side);
            assert(after.terms == canonical.terms);
            assert(covers(names, canonical));
            lemma_same_terms_total(canonical, after, names, at, power);
            let c = number_value(coefficient, power);
            assert(number_value(Number::opposite(coefficient), power) == -c);
            assert(c == (1 as real) * (c * (1 as real) - (0 as real) - (0 as real)))
                by (nonlinear_arith);
            assert(-c == (-(1 as real)) * (c * (1 as real) - (0 as real) - (0 as real)))
                by (nonlinear_arith);
        },
        ValueView::Sum(values) => {
            lemma_fold_values_total(canonical, values, sign_of(left_side), names, at, power);
        },
    }
}

/// What the canonical equation of two values stands for: the left value
/// minus the right value, but for the constants inside the sums of the two
/// sides, which are counted with the opposite sign.
pub proof fn lemma_canonical_total(
    left: ValueView,
    right: ValueView,
    names: Seq<Seq<char>>,
    at: Assignment,
    power: Power,
)
    requires
        names.no_duplicates(),
        covers(names, canonical_of(left, right)),
    ensures
        canonical_total(canonical_of(left, right), names, at, power) == (value_of(left, at, power)
            - nested_constants(left, power) - nested_constants(left, power)) - (value_of(
            right,
            at,
            power,
        ) - nested_constants(right, power) - nested_constants(right, power)),
{
    let start = CanonicalView::empty();
    let middle = start.fold_side(left, true);
    lemma_fold_side_total(middle, right, false, names, at, power);
    lemma_fold_side_total(start, left, true, names, at, power);
    lemma_empty_total(names, at, power);
    let l = value_of(left, at, power) - nested_constants(left, power) - nested_constants(left, power);
    let r = value_of(right, at, power) - nested_constants(right, power) - nested_constants(
        right,
        power,
    );
    assert((1 as real) * l + (-(1 as real)) * r == l - r) by (nonlinear_arith);
}

/// The names of a list of terms, in order.
pub open spec fn names_of(entries: Seq<(Seq<char>, Number)>) -> Seq<Seq<char>> {
    Seq::new(entries.len(), |i: int| entries[i].0)
}

/// The sum of each coefficient of a list of terms times what its variable
/// stands for.
pub open spec fn entries_total(entries: Seq<(Seq<char>, Number)>, at: Assignment, power: Power) -> real
    decreases entries.len(),
{
    if entries.len() == 0 {
        0 as real
    } else {
        entries_total(entries.drop_last(), at, power) + number_value(entries.last().1, power) * at(
            entries.last().0,
        )
    }
}

proof fn lemma_entries_prefix_total(
    entries: Seq<(Seq<char>, Number)>,
    constant: Number,
    count: int,
    at: Assignment,
    power: Power,
)
    requires
        distinct_names(entries),
        0 <= count <= entries.len(),
    ensures
        terms_total(
            CanonicalView { terms: terms_map(entries), constant },
            names_of(entries).take(count),
            at,
            power,
        ) == entries_total(entries.take(count), at, power),
    decreases count,
{
    if count > 0 {
        lemma_entries_prefix_total(entries, constant, count - 1, at, power);
        lemma_terms_map(entries);
        let names = names_of(entries);
        assert(names.take(count).drop_last() =~= names.take(count - 1));
        assert(entries.take(count).drop_last() =~= entries.take(count - 1));
        assert(names.take(count).last() == entries[count - 1].0);
        assert(terms_map(entries).contains_key(entries[count - 1].0));
    }
}

/// The terms of a list without repetitions, summed over their own names,
/// add up to what the list adds up to; and those names are a list without
/// repetitions that holds every variable with a term.
pub proof fn lemma_entries_total(
    entries: Seq<(Seq<char>, Number)>,
    constant: Number,
    at: Assignment,
    power: Power,
)
    requires
        distinct_names(entries),
    ensures
        names_of(entries).no_duplicates(),
        covers(names_of(entries), CanonicalView { terms: terms_map(entries), constant }),
        terms_total(
            CanonicalView { terms: terms_map(entries), constant },
            names_of(entries),
            at,
            power,
        ) == entries_total(entries, at, power),
{
    let names = names_of(entries);
    lemma_terms_map(entries);
    assert forall|name: Seq<char>| #[trigger]
        terms_map(entries).contains_key(name) implies names.contains(name) by {
        let i = choose|i: int| 0 <= i < entries.len() && (#[trigger] entries[i]).0 == name;
        assert(names[i] == name);
    }
    lemma_entries_prefix_total(entries, constant, entries.len() as int, at, power);
    assert(names.take(entries.len() as int) =~= names);
    assert(entries.take(entries.len() as int) =~= entries);
}

/// The two trees of the equation that `input` spells.
pub open spec fn equation_of(input: Seq<u8>) -> EquationView
    recommends
        simplify(input) is Ok,
{
    parse_equation(tokens_of(input)->Ok_0, 0)->Ok_0
}

/// The canonical equation holds wherever the equation holds.
///
/// Take an input that simplifies, in which every denominator is a constant
/// that is not zero, and in which the constants inside the sum of the left
/// side add up to those inside the sum of the right side. Under every
/// assignment that gives both sides of the equation the same value, the
/// terms of the canonical equation and its constant add up to zero. The
/// terms are summed over `names`, any list without repetitions that holds
/// every variable with a term.
pub proof fn lemma_simplified_equation_holds(
    input: Seq<u8>,
    names: Seq<Seq<char>>,
    at: Assignment,
    power: Power,
)
    requires
        simplify(input) is Ok,
        names.no_duplicates(),
        covers(names, simplify(input)->Ok_0),
        divides_by_constants(equation_of(input).left, power),
        divides_by_constants(equation_of(input).right, power),
        nested_constants(evaluate(equation_of(input).left)->Ok_0, power) == nested_constants(
            evaluate(equation_of(input).right)->Ok_0,
            power,
        ),
        expression_value(equation_of(input).left, at, power) == expression_value(
            equation_of(input).right,
            at,
            power,
        ),
    ensures
        canonical_total(simplify(input)->Ok_0, names, at, power) == 0 as real,
{
    let tokens = tokens_of(input)->Ok_0;
    let equation = equation_of(input);
    lemma_equation_call_free(tokens, 0);
    lemma_evaluate_keeps_value(equation.left, at, power);
    lemma_evaluate_keeps_value(equation.right, at, power);
    let left = evaluate(equation.left)->Ok_0;
    let right = evaluate(equation.right)->Ok_0;
    lemma_canonical_total(left, right, names, at, power);
}

} // verus!
