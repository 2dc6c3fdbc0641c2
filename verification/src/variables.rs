//! Which variables a stage holds, and that no stage loses or adds one.
//!
//! The names of the identifiers among the tokens are the variables of the
//! two trees, those are the variables of the two values, and those are the
//! variables with a term in the canonical equation: a variable has a term
//! as soon as it occurs, whatever its coefficients add up to.
use vstd::prelude::*;

use crate::evaluator::value::{lemma_negate_sum, monomials_only, negate_all};
use crate::evaluator::{
    combine, combine_lists, combine_row, evaluate, evaluate_binary, is_binary_operator, operate,
    power_failure, Operation, ValueView,
};
use crate::expression::{ExpressionTypeView, ExpressionView};
use crate::lexer::{
    binary, expect, expression_rest, factor_rest, is_product_operator, is_sum_operator,
    lemma_equation_call_free, lemma_parse_advances, parse_equation, parse_exponent,
    parse_expression, parse_factor, parse_group, parse_monomial, parse_primary,
    starts_implicit_product, Parsed,
};
use crate::number::Number;
use crate::simplifier::{canonical_of, sign_of, simplify, CanonicalView};
use crate::tokenizer::{tokens_of, TokenTypeView, TokenView};

verus! {

/// Whether the token at `index` is the identifier `name`.
pub open spec fn names_token(tokens: Seq<TokenView>, index: int, name: Seq<char>) -> bool {
    0 <= index < tokens.len() && tokens[index].token_type == TokenTypeView::Identifier(name)
}

/// The names of the identifiers among the tokens from `from` up to, and
/// without, `to`.
pub open spec fn token_names(tokens: Seq<TokenView>, from: int, to: int) -> Set<Seq<char>> {
    Set::new(|name: Seq<char>| exists|i: int| from <= i < to && #[trigger] names_token(tokens, i, name))
}

/// The variables of an expression.
pub open spec fn expression_names(expression: ExpressionView) -> Set<Seq<char>>
    decreases expression,
{
    match expression.expression_type {
        ExpressionTypeView::Number(value) => Set::empty(),
        ExpressionTypeView::Variable(name) => Set::empty().insert(name),
        ExpressionTypeView::Negation(inner) => expression_names(*inner),
        ExpressionTypeView::Grouping(inner) => expression_names(*inner),
        ExpressionTypeView::Binary { left, operator, right } => expression_names(*left).union(
            expression_names(*right),
        ),
        ExpressionTypeView::FunctionCall { name, parameter } => expression_names(*parameter),
    }
}

/// The variable of a monomial, if it has one.
pub open spec fn variable_names(variable: Option<Seq<char>>) -> Set<Seq<char>> {
    match variable {
        Some(name) => Set::empty().insert(name),
        None => Set::empty(),
    }
}

/// The variables of a value.
pub open spec fn value_names(value: ValueView) -> Set<Seq<char>>
    decreases value,
{
    match value {
        ValueView::Monomial { coefficient, variable } => variable_names(variable),
        ValueView::Sum(values) => list_names(values),
    }
}

/// The variables of a list of values.
pub open spec fn list_names(values: Seq<ValueView>) -> Set<Seq<char>>
    decreases values,
{
    if values.len() == 0 {
        Set::empty()
    } else {
        list_names(values.drop_last()).union(value_names(values.last()))
    }
}

/// The names between two places are those up to a place between them and
/// those from it on.
pub proof fn lemma_token_names_split(tokens: Seq<TokenView>, from: int, middle: int, to: int)
    requires
        from <= middle <= to,
    ensures
        token_names(tokens, from, to) == token_names(tokens, from, middle).union(
            token_names(tokens, middle, to),
        ),
{
    let whole = token_names(tokens, from, to);
    let parts = token_names(tokens, from, middle).union(token_names(tokens, middle, to));
    assert forall|name: Seq<char>| whole.contains(name) <==> parts.contains(name) by {
        if whole.contains(name) {
            let i = choose|i: int| from <= i < to && #[trigger] names_token(tokens, i, name);
            if i < middle {
                assert(token_names(tokens, from, middle).contains(name));
            } else {
                assert(token_names(tokens, middle, to).contains(name));
            }
        }
        if token_names(tokens, from, middle).contains(name) {
            let i = choose|i: int| from <= i < middle && #[trigger] names_token(tokens, i, name);
            assert(from <= i < to && names_token(tokens, i, name));
        }
        if token_names(tokens, middle, to).contains(name) {
            let i = choose|i: int| middle <= i < to && #[trigger] names_token(tokens, i, name);
            assert(from <= i < to && names_token(tokens, i, name));
        }
    }
    assert(whole =~= parts);
}

/// The names of one token: its own, where it is an identifier.
pub proof fn lemma_token_names_one(tokens: Seq<TokenView>, index: int)
    requires
        0 <= index < tokens.len(),
    ensures
        token_names(tokens, index, index + 1) == match tokens[index].token_type {
            TokenTypeView::Identifier(name) => Set::<Seq<char>>::empty().insert(name),
            _ => Set::<Seq<char>>::empty(),
        },
{
    let one = token_names(tokens, index, index + 1);
    let own = match tokens[index].token_type {
        TokenTypeView::Identifier(name) => Set::<Seq<char>>::empty().insert(name),
        _ => Set::<Seq<char>>::empty(),
    };
    assert forall|name: Seq<char>| one.contains(name) <==> own.contains(name) by {
        if one.contains(name) {
            let i = choose|i: int| index <= i < index + 1 && #[trigger] names_token(tokens, i, name);
            assert(i == index);
        }
        if own.contains(name) {
            assert(names_token(tokens, index, name));
        }
    }
    assert(one =~= own);
}

/// No names between a place and itself.
pub proof fn lemma_token_names_none(tokens: Seq<TokenView>, index: int)
    ensures
        token_names(tokens, index, index) == Set::<Seq<char>>::empty(),
{
    assert(token_names(tokens, index, index) =~= Set::<Seq<char>>::empty());
}

/// What holds of every tree a rule yields from `position`: its variables
/// are the names of the identifiers that the rule consumed.
pub open spec fn keeps_names(tokens: Seq<TokenView>, position: int, parsed: Parsed) -> bool {
    parsed matches Ok((expression, next)) ==> expression_names(expression) =~= token_names(
        tokens,
        position,
        next,
    )
}

/// What holds of every tree that the tail of a repetition yields from
/// `position`: its variables are those of the tree before the tail and the
/// names of the identifiers that the tail consumed.
pub open spec fn adds_names(
    tokens: Seq<TokenView>,
    left: ExpressionView,
    position: int,
    parsed: Parsed,
) -> bool {
    parsed matches Ok((expression, next)) ==> expression_names(expression) =~= expression_names(
        left,
    ).union(token_names(tokens, position, next))
}

proof fn lemma_primary_names(tokens: Seq<TokenView>, position: int)
    requires
        0 <= position <= tokens.len(),
    ensures
        keeps_names(tokens, position, parse_primary(tokens, position)),
        keeps_names(tokens, position, parse_exponent(tokens, position)),
    decreases tokens.len() - position, 0nat,
{
    if position < tokens.len() {
        lemma_token_names_one(tokens, position);
        if tokens[position].token_type is LeftParen {
            lemma_expression_names(tokens, position + 1);
            lemma_parse_advances(tokens, position + 1);
            if let Ok((inner, next)) = parse_expression(tokens, position + 1) {
                if expect(tokens, next, TokenTypeView::RightParen) is None {
                    lemma_token_names_one(tokens, next);
                    lemma_token_names_split(tokens, position, position + 1, next + 1);
                    lemma_token_names_split(tokens, position + 1, next, next + 1);
                    assert(expression_names(
                        parse_group(tokens, position + 1, tokens[position])->Ok_0.0,
                    ) =~= expression_names(inner));
                }
            }
        }
    }
}

proof fn lemma_monomial_names(tokens: Seq<TokenView>, position: int)
    requires
        0 <= position <= tokens.len(),
    ensures
        keeps_names(tokens, position, parse_monomial(tokens, position)),
    decreases tokens.len() - position, 2nat,
{
    lemma_parse_advances(tokens, position);
    if position < tokens.len() && tokens[position].token_type is Minus {
        lemma_monomial_names(tokens, position + 1);
        lemma_parse_advances(tokens, position + 1);
        lemma_token_names_one(tokens, position);
        if let Ok((operand, next)) = parse_monomial(tokens, position + 1) {
            lemma_token_names_split(tokens, position, position + 1, next);
        }
    } else {
        lemma_primary_names(tokens, position);
        if let Ok((primary, next)) = parse_primary(tokens, position) {
            if next < tokens.len() {
                if starts_implicit_product(tokens[next].token_type) {
                    lemma_monomial_names(tokens, next);
                    lemma_parse_advances(tokens, next);
                    if let Ok((right, after)) = parse_monomial(tokens, next) {
                        lemma_token_names_split(tokens, position, next, after);
                    }
                } else if tokens[next].token_type is Hat {
                    lemma_primary_names(tokens, next + 1);
                    lemma_parse_advances(tokens, next + 1);
                    lemma_token_names_one(tokens, next);
                    if let Ok((exponent, after)) = parse_exponent(tokens, next + 1) {
                        lemma_token_names_split(tokens, position, next, after);
                        lemma_token_names_split(tokens, next, next + 1, after);
                    }
                }
            }
        }
    }
}

proof fn lemma_factor_rest_names(tokens: Seq<TokenView>, left: ExpressionView, position: int)
    requires
        0 <= position <= tokens.len(),
    ensures
        adds_names(tokens, left, position, factor_rest(tokens, left, position)),
    decreases tokens.len() - position, 3nat,
{
    if position < tokens.len() && is_product_operator(tokens[position].token_type) {
        lemma_monomial_names(tokens, position + 1);
        lemma_parse_advances(tokens, position + 1);
        lemma_token_names_one(tokens, position);
        if let Ok((right, next)) = parse_monomial(tokens, position + 1) {
            let joined = binary(left, tokens[position], right, tokens[position]);
            lemma_factor_rest_names(tokens, joined, next);
            if let Ok((whole, end)) = factor_rest(tokens, joined, next) {
                lemma_factor_rest_ends(tokens, joined, next);
                lemma_token_names_split(tokens, position, position + 1, end);
                lemma_token_names_split(tokens, position + 1, next, end);
            }
        }
    } else {
        lemma_token_names_none(tokens, position);
    }
}

/// The tail of a factor ends at or behind the place where it starts.
proof fn lemma_factor_rest_ends(tokens: Seq<TokenView>, left: ExpressionView, position: int)
    requires
        0 <= position <= tokens.len(),
    ensures
        factor_rest(tokens, left, position) matches Ok((whole, end)) ==> position <= end
            <= tokens.len(),
    decreases tokens.len() - position,
{
    if position < tokens.len() && is_product_operator(tokens[position].token_type) {
        lemma_parse_advances(tokens, position + 1);
        if let Ok((right, next)) = parse_monomial(tokens, position + 1) {
            lemma_factor_rest_ends(
                tokens,
                binary(left, tokens[position], right, tokens[position]),
                next,
            );
        }
    }
}

/// The tail of an expression ends at or behind the place where it starts.
proof fn lemma_expression_rest_ends(tokens: Seq<TokenView>, left: ExpressionView, position: int)
    requires
        0 <= position <= tokens.len(),
    ensures
        expression_rest(tokens, left, position) matches Ok((whole, end)) ==> position <= end
            <= tokens.len(),
    decreases tokens.len() - position,
{
    if position < tokens.len() && is_sum_operator(tokens[position].token_type) {
        lemma_parse_advances(tokens, position + 1);
        if let Ok((right, next)) = parse_factor(tokens, position + 1) {
            lemma_expression_rest_ends(
                tokens,
                binary(left, tokens[position], right, tokens[position]),
                next,
            );
        }
    }
}

proof fn lemma_factor_names(tokens: Seq<TokenView>, position: int)
    requires
        0 <= position <= tokens.len(),
    ensures
        keeps_names(tokens, position, parse_factor(tokens, position)),
    decreases tokens.len() - position, 4nat,
{
    lemma_monomial_names(tokens, position);
    lemma_parse_advances(tokens, position);
    if let Ok((first, next)) = parse_monomial(tokens, position) {
        lemma_factor_rest_names(tokens, first, next);
        lemma_factor_rest_ends(tokens, first, next);
        if let Ok((whole, end)) = factor_rest(tokens, first, next) {
            lemma_token_names_split(tokens, position, next, end);
        }
    }
}

proof fn lemma_expression_rest_names(tokens: Seq<TokenView>, left: ExpressionView, position: int)
    requires
        0 <= position <= tokens.len(),
    ensures
        adds_names(tokens, left, position, expression_rest(tokens, left, position)),
    decreases tokens.len() - position, 3nat,
{
    if position < tokens.len() && is_sum_operator(tokens[position].token_type) {
        lemma_factor_names(tokens, position + 1);
        lemma_parse_advances(tokens, position + 1);
        lemma_token_names_one(tokens, position);
        if let Ok((right, next)) = parse_factor(tokens, position + 1) {
            let joined = binary(left, tokens[position], right, tokens[position]);
            lemma_expression_rest_names(tokens, joined, next);
            if let Ok((whole, end)) = expression_rest(tokens, joined, next) {
                lemma_expression_rest_ends(tokens, joined, next);
                lemma_token_names_split(tokens, position, position + 1, end);
                lemma_token_names_split(tokens, position + 1, next, end);
            }
        }
    } else {
        lemma_token_names_none(tokens, position);
    }
}

proof fn lemma_expression_names(tokens: Seq<TokenView>, position: int)
    requires
        0 <= position <= tokens.len(),
    ensures
        keeps_names(tokens, position, parse_expression(tokens, position)),
    decreases tokens.len() - position, 5nat,
{
    lemma_factor_names(tokens, position);
    lemma_parse_advances(tokens, position);
    if let Ok((first, next)) = parse_factor(tokens, position) {
        lemma_expression_rest_names(tokens, first, next);
        lemma_expression_rest_ends(tokens, first, next);
        if let Ok((whole, end)) = expression_rest(tokens, first, next) {
            lemma_token_names_split(tokens, position, next, end);
        }
    }
}

/// The parser loses no variable and adds none: the variables of the two
/// trees of an equation are the names of the identifiers among the tokens
/// from the place where the parser started on.
pub proof fn lemma_equation_names(tokens: Seq<TokenView>, position: int)
    requires
        0 <= position <= tokens.len(),
    ensures
        parse_equation(tokens, position) matches Ok(equation) ==> expression_names(
            equation.left,
        ).union(expression_names(equation.right)) == token_names(
            tokens,
            position,
            tokens.len() as int,
        ),
{
    lemma_expression_names(tokens, position);
    lemma_parse_advances(tokens, position);
    if let Ok((left, next)) = parse_expression(tokens, position) {
        if expect(tokens, next, TokenTypeView::Equal) is None {
            lemma_expression_names(tokens, next + 1);
            lemma_parse_advances(tokens, next + 1);
            lemma_token_names_one(tokens, next);
            if let Ok((right, end)) = parse_expression(tokens, next + 1) {
                if end >= tokens.len() {
                    lemma_token_names_split(tokens, position, next, end);
                    lemma_token_names_split(tokens, next, next + 1, end);
                    assert(expression_names(left).union(expression_names(right)) =~= token_names(
                        tokens,
                        position,
                        tokens.len() as int,
                    ));
                }
            }
        }
    }
}


/// Whether the value is a monomial or a sum of at least one monomial.
pub open spec fn proper(value: ValueView) -> bool {
    value.flat() && (value matches ValueView::Sum(values) ==> values.len() > 0)
}

/// The variables of two lists joined are those of both.
pub proof fn lemma_list_names_joined(left: Seq<ValueView>, right: Seq<ValueView>)
    ensures
        list_names(left + right) == list_names(left).union(list_names(right)),
    decreases right.len(),
{
    if right.len() == 0 {
        assert(left + right =~= left);
        assert(list_names(left).union(list_names(right)) =~= list_names(left));
    } else {
        assert((left + right).drop_last() =~= left + right.drop_last());
        lemma_list_names_joined(left, right.drop_last());
        assert(list_names(left + right) =~= list_names(left).union(list_names(right)));
    }
}

/// The variables of a list with one more value are those of the list and
/// of the value.
pub proof fn lemma_list_names_push(values: Seq<ValueView>, last: ValueView)
    ensures
        list_names(values.push(last)) == list_names(values).union(value_names(last)),
{
    assert(values.push(last).drop_last() =~= values);
}

/// A value alone has the variables it has in a list.
pub proof fn lemma_as_list_names(value: ValueView)
    ensures
        list_names(value.as_list()) == value_names(value),
{
    if value is Monomial {
        assert(value.as_list().drop_last() =~= Seq::<ValueView>::empty());
        assert(list_names(Seq::<ValueView>::empty()) == Set::<Seq<char>>::empty());
        assert(value.as_list().last() == value);
        assert(list_names(value.as_list()) =~= value_names(value));
    }
}

/// Negating keeps the variables.
pub proof fn lemma_negate_names(value: ValueView)
    ensures
        value_names(value.negate()) == value_names(value),
    decreases value,
{
    if let ValueView::Sum(values) = value {
        lemma_negate_sum(values);
        lemma_negate_all_names(values);
    }
}

/// Negating each value of a list keeps the variables of the list.
pub proof fn lemma_negate_all_names(values: Seq<ValueView>)
    ensures
        list_names(negate_all(values)) == list_names(values),
    decreases values,
{
    if values.len() > 0 {
        assert(negate_all(values).drop_last() =~= negate_all(values.drop_last()));
        lemma_negate_all_names(values.drop_last());
        lemma_negate_names(values.last());
    }
}

/// A sum has the variables of both values.
pub proof fn lemma_plus_names(left: ValueView, right: ValueView)
    ensures
        value_names(left.plus(right)) == value_names(left).union(value_names(right)),
{
    match (left, right) {
        (
            ValueView::Monomial { coefficient: c1, variable: v1 },
            ValueView::Monomial { coefficient: c2, variable: v2 },
        ) => {
            if v1 == v2 {
                assert(value_names(left.plus(right)) =~= value_names(left).union(
                    value_names(right),
                ));
            } else {
                lemma_list_names_push(seq![left], right);
                assert(seq![left].push(right) =~= seq![left, right]);
                lemma_as_list_names(left);
            }
        },
        (ValueView::Sum(values), ValueView::Monomial { coefficient, variable }) => {
            lemma_list_names_push(values, right);
        },
        (ValueView::Monomial { coefficient, variable }, ValueView::Sum(values)) => {
            lemma_list_names_push(values, left);
            assert(list_names(values).union(value_names(left)) =~= value_names(left).union(
                list_names(values),
            ));
        },
        (ValueView::Sum(left_values), ValueView::Sum(right_values)) => {
            lemma_list_names_joined(left_values, right_values);
        },
    }
}

/// A monomial paired with at least one monomial has the variables of all
/// of them.
proof fn lemma_row_names(operation: Operation, left: ValueView, rights: Seq<ValueView>)
    requires
        left is Monomial,
        monomials_only(rights),
        rights.len() > 0,
    ensures
        combine_row(operation, left, rights) matches Some(row) ==> row.len() == rights.len()
            && monomials_only(row) && list_names(row) == value_names(left).union(
            list_names(rights),
        ),
    decreases rights.len(),
{
    let earlier_rights = rights.drop_last();
    assert(rights[rights.len() - 1] is Monomial);
    if let Some(row) = combine_row(operation, left, rights) {
        let earlier = combine_row(operation, left, earlier_rights)->0;
        let last = combine(operation, left, rights.last())->0;
        assert(last is Monomial);
        assert(value_names(last) =~= value_names(left).union(value_names(rights.last())));
        lemma_list_names_push(earlier, last);
        if earlier_rights.len() > 0 {
            assert(monomials_only(earlier_rights)) by {
                assert forall|i: int| 0 <= i < earlier_rights.len() implies (
                #[trigger] earlier_rights[i]) is Monomial by {
                    assert(rights[i] is Monomial);
                }
            }
            lemma_row_names(operation, left, earlier_rights);
        } else {
            assert(earlier =~= Seq::<ValueView>::empty());
        }
        assert forall|i: int| 0 <= i < row.len() implies (#[trigger] row[i]) is Monomial by {
            if i < earlier.len() {
                assert(earlier[i] is Monomial);
            }
        }
        assert(row == earlier.push(last));
        assert(list_names(Seq::<ValueView>::empty()) == Set::<Seq<char>>::empty());
        assert(list_names(rights) == list_names(earlier_rights).union(
            value_names(rights.last()),
        ));
        assert(list_names(row) =~= value_names(left).union(list_names(rights)));
    }
}

/// Monomials paired with monomials, at least one on each side, have the
/// variables of all of them.
proof fn lemma_lists_names(operation: Operation, lefts: Seq<ValueView>, rights: Seq<ValueView>)
    requires
        monomials_only(lefts),
        monomials_only(rights),
        lefts.len() > 0,
        rights.len() > 0,
    ensures
        combine_lists(operation, lefts, rights) matches Some(pairs) ==> pairs.len() > 0
            && monomials_only(pairs) && list_names(pairs) == list_names(lefts).union(
            list_names(rights),
        ),
    decreases lefts.len(),
{
    let earlier_lefts = lefts.drop_last();
    assert(lefts[lefts.len() - 1] is Monomial);
    if let Some(pairs) = combine_lists(operation, lefts, rights) {
        let earlier = combine_lists(operation, earlier_lefts, rights)->0;
        let row = combine_row(operation, lefts.last(), rights)->0;
        lemma_row_names(operation, lefts.last(), rights);
        lemma_list_names_joined(earlier, row);
        if earlier_lefts.len() > 0 {
            assert(monomials_only(earlier_lefts)) by {
                assert forall|i: int| 0 <= i < earlier_lefts.len() implies (
                #[trigger] earlier_lefts[i]) is Monomial by {
                    assert(lefts[i] is Monomial);
                }
            }
            lemma_lists_names(operation, earlier_lefts, rights);
        } else {
            assert(earlier =~= Seq::<ValueView>::empty());
        }
        assert forall|i: int| 0 <= i < pairs.len() implies (#[trigger] pairs[i]) is Monomial by {
            if i < earlier.len() {
                assert(earlier[i] is Monomial);
            } else {
                assert(row[i - earlier.len()] is Monomial);
            }
        }
        assert(pairs == earlier + row);
        assert(list_names(Seq::<ValueView>::empty()) == Set::<Seq<char>>::empty());
        assert(list_names(lefts) == list_names(earlier_lefts).union(value_names(lefts.last())));
        assert(list_names(pairs) =~= list_names(lefts).union(list_names(rights)));
    }
}

/// The list of a proper value holds monomials, and at least one.
proof fn lemma_proper_list(value: ValueView)
    requires
        proper(value),
    ensures
        monomials_only(value.as_list()),
        value.as_list().len() > 0,
{
}

/// The evaluator loses no variable and adds none: the value of an
/// expression holds the variables of the expression, and it is a monomial
/// or a sum of at least one monomial.
pub proof fn lemma_evaluate_names(expression: ExpressionView)
    requires
        expression.call_free(),
    ensures
        evaluate(expression) matches Ok(value) ==> proper(value) && value_names(value)
            == expression_names(expression),
    decreases expression,
{
    match expression.expression_type {
        ExpressionTypeView::Negation(inner) => {
            lemma_evaluate_names(*inner);
            if let Ok(value) = evaluate(*inner) {
                lemma_negate_names(value);
                if let ValueView::Sum(values) = value {
                    lemma_negate_sum(values);
                }
            }
        },
        ExpressionTypeView::Grouping(inner) => {
            lemma_evaluate_names(*inner);
        },
        ExpressionTypeView::Binary { left, operator, right } => {
            lemma_evaluate_names(*left);
            lemma_evaluate_names(*right);
            if is_binary_operator(operator.token_type) {
                assert(evaluate(expression) == evaluate_binary(operator.token_type, *left, *right));
                if let Ok(l) = evaluate(*left) {
                    if let Ok(r) = evaluate(*right) {
                        assert(evaluate(expression) == operate(
                            operator.token_type,
                            l,
                            r,
                            left.token,
                            right.token,
                        ));
                        lemma_proper_list(l);
                        lemma_proper_list(r);
                        lemma_as_list_names(l);
                        lemma_as_list_names(r);
                        match operator.token_type {
                            TokenTypeView::Plus => {
                                lemma_plus_names(l, r);
                            },
                            TokenTypeView::Minus => {
                                lemma_negate_names(r);
                                if let ValueView::Sum(values) = r {
                                    lemma_negate_sum(values);
                                }
                                assert(proper(r.negate()));
                                lemma_plus_names(l, r.negate());
                            },
                            TokenTypeView::Star => {
                                lemma_lists_names(Operation::Times, l.as_list(), r.as_list());
                                if l is Monomial && r is Monomial {
                                    if let Some(value) = combine(Operation::Times, l, r) {
                                        assert(value_names(value) =~= value_names(l).union(
                                            value_names(r),
                                        ));
                                    }
                                }
                            },
                            TokenTypeView::Slash => {
                                lemma_lists_names(Operation::Over, l.as_list(), r.as_list());
                                if l is Monomial && r is Monomial {
                                    assert(value_names(l).union(Set::empty()) =~= value_names(l));
                                }
                            },
                            _ => {
                                if power_failure(l, r) is None {
                                    assert(value_names(l).union(value_names(r)) =~= Set::<
                                        Seq<char>,
                                    >::empty());
                                }
                            },
                        }
                    }
                }
            }
        },
        _ => {},
    }
}

/// Folding an element of a sum adds its variables to those with a term.
proof fn lemma_fold_value_names(canonical: CanonicalView, value: ValueView, multiply_by: Number)
    ensures
        canonical.fold_value(value, multiply_by).terms.dom() == canonical.terms.dom().union(
            value_names(value),
        ),
    decreases value,
{
    match value {
        ValueView::Monomial { coefficient, variable: Some(name) } => {
            assert(canonical.fold_value(value, multiply_by).terms.dom()
                =~= canonical.terms.dom().union(value_names(value)));
        },
        ValueView::Monomial { coefficient, variable: None } => {
            assert(canonical.fold_value(value, multiply_by).terms.dom()
                =~= canonical.terms.dom().union(value_names(value)));
        },
        ValueView::Sum(values) => {
            lemma_fold_values_names(canonical, values, multiply_by);
        },
    }
}

proof fn lemma_fold_values_names(
    canonical: CanonicalView,
    values: Seq<ValueView>,
    multiply_by: Number,
)
    ensures
        canonical.fold_values(values, multiply_by).terms.dom() == canonical.terms.dom().union(
            list_names(values),
        ),
    decreases values,
{
    if values.len() == 0 {
        assert(canonical.terms.dom().union(list_names(values)) =~= canonical.terms.dom());
    } else {
        let earlier = canonical.fold_values(values.drop_last(), multiply_by);
        lemma_fold_values_names(canonical, values.drop_last(), multiply_by);
        lemma_fold_value_names(earlier, values.last(), multiply_by);
        assert(canonical.fold_values(values, multiply_by).terms.dom()
            =~= canonical.terms.dom().union(list_names(values)));
    }
}

/// The variables with a term in the canonical equation of two values are
/// the variables of the two values: each has one term, whatever its
/// coefficients add up to.
pub proof fn lemma_canonical_names(left: ValueView, right: ValueView)
    ensures
        canonical_of(left, right).terms.dom() == value_names(left).union(value_names(right)),
{
    let start = CanonicalView::empty();
    let middle = start.fold_side(left, true);
    assert(middle.terms.dom() =~= value_names(left)) by {
        match left {
            ValueView::Monomial { coefficient, variable: Some(name) } => {},
            ValueView::Monomial { coefficient, variable: None } => {},
            ValueView::Sum(values) => {
                lemma_fold_values_names(start, values, sign_of(true));
            },
        }
    }
    let end = middle.fold_side(right, false);
    assert(end.terms.dom() =~= middle.terms.dom().union(value_names(right))) by {
        match right {
            ValueView::Monomial { coefficient, variable: Some(name) } => {},
            ValueView::Monomial { coefficient, variable: None } => {},
            ValueView::Sum(values) => {
                lemma_fold_values_names(middle, values, sign_of(false));
            },
        }
    }
}

/// The variables with a term are the identifiers of the input.
///
/// Where an input simplifies, a variable has a term in the canonical
/// equation if and only if its name is that of an identifier among the
/// tokens of the input. A variable whose coefficients cancel keeps its
/// term; the map holds one coefficient for each name.
pub proof fn lemma_simplified_names(input: Seq<u8>)
    requires
        simplify(input) is Ok,
    ensures
        simplify(input)->Ok_0.terms.dom() == token_names(
            tokens_of(input)->Ok_0,
            0,
            tokens_of(input)->Ok_0.len() as int,
        ),
{
    let tokens = tokens_of(input)->Ok_0;
    let equation = parse_equation(tokens, 0)->Ok_0;
    lemma_equation_names(tokens, 0);
    lemma_equation_call_free(tokens, 0);
    lemma_evaluate_names(equation.left);
    lemma_evaluate_names(equation.right);
    lemma_canonical_names(evaluate(equation.left)->Ok_0, evaluate(equation.right)->Ok_0);
}

} // verus!
