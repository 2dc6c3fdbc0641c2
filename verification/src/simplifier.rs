//! The canonical form: one coefficient per variable and one constant.
//!
//! [`simplify`] says what a whole input becomes: the tokens of the input,
//! the two trees of the equation, their two values, and the fold of both
//! values into one canonical equation ([`canonical_of`]).
use vstd::prelude::*;
use vstd::string::*;

pub mod error;

pub use error::{SimplifierError, SimplifierErrorView, SimplifierResult};

use crate::evaluator::value::{lemma_sum_view, same_name};
use crate::evaluator::{evaluate, Evaluator, Value, ValueView, value_views};
use crate::lexer::{parse_equation, Lexer};
use crate::number::Number;
use crate::tokenizer::{tokenize, tokens_of};

verus! {

/// The mathematical value of a [`CanonicalEquation`]: a coefficient for
/// each variable that occurs, and a constant.
pub struct CanonicalView {
    pub terms: Map<Seq<char>, Number>,
    pub constant: Number,
}

impl CanonicalView {
    /// No variable, and the constant zero.
    pub open spec fn empty() -> CanonicalView {
        CanonicalView { terms: Map::empty(), constant: Number::Integer(0) }
    }

    /// The coefficient of `name`; zero for a variable that has none yet.
    pub open spec fn coefficient(self, name: Seq<char>) -> Number {
        if self.terms.contains_key(name) {
            self.terms[name]
        } else {
            Number::Integer(0)
        }
    }

    /// The equation with `amount` added to the coefficient of `name`.
    pub open spec fn add_term(self, name: Seq<char>, amount: Number) -> CanonicalView {
        CanonicalView {
            terms: self.terms.insert(name, Number::sum(self.coefficient(name), amount)),
            constant: self.constant,
        }
    }

    /// The equation with `constant` in place of its constant.
    pub open spec fn with_constant(self, constant: Number) -> CanonicalView {
        CanonicalView { terms: self.terms, constant }
    }

    /// The equation with an element of a sum folded in. A monomial with a
    /// variable adds its coefficient times `multiply_by` to the coefficient
    /// of the variable; a constant has its coefficient times `multiply_by`
    /// subtracted from the constant; a sum folds in its elements.
    pub open spec fn fold_value(self, value: ValueView, multiply_by: Number) -> CanonicalView
        decreases value,
    {
        match value {
            ValueView::Monomial { coefficient, variable: Some(name) } => self.add_term(
                name,
                Number::product(coefficient, multiply_by),
            ),
            ValueView::Monomial { coefficient, variable: None } => self.with_constant(
                Number::difference(self.constant, Number::product(coefficient, multiply_by)),
            ),
            ValueView::Sum(values) => self.fold_values(values, multiply_by),
        }
    }

    /// The equation with the elements of a sum folded in, first to last.
    pub open spec fn fold_values(self, values: Seq<ValueView>, multiply_by: Number) -> CanonicalView
        decreases values,
    {
        if values.len() == 0 {
            self
        } else {
            self.fold_values(values.drop_last(), multiply_by).fold_value(
                values.last(),
                multiply_by,
            )
        }
    }

    /// The equation with one side folded in, the left side with the sign
    /// one and the right side with the sign minus one. A side that is a
    /// monomial with a variable adds its coefficient times the sign to the
    /// coefficient of the variable. A side that is a constant is added to
    /// the constant on the left and has its opposite added on the right. A
    /// side that is a sum folds in its elements, as [`Self::fold_value`]
    /// states it, with the sign.
    pub open spec fn fold_side(self, value: ValueView, left_side: bool) -> CanonicalView {
        match value {
            ValueView::Monomial { coefficient, variable: Some(name) } => self.add_term(
                name,
                Number::product(coefficient, sign_of(left_side)),
            ),
            ValueView::Monomial { coefficient, variable: None } => self.with_constant(
                Number::sum(
                    self.constant,
                    if left_side {
                        coefficient
                    } else {
                        Number::opposite(coefficient)
                    },
                ),
            ),
            ValueView::Sum(values) => self.fold_values(values, sign_of(left_side)),
        }
    }
}

/// One for the left side of an equation, minus one for the right side.
pub open spec fn sign_of(left_side: bool) -> Number {
    if left_side {
        Number::Integer(1)
    } else {
        Number::Integer(-1i64)
    }
}

/// The canonical equation of `left = right`: the left side folded into the
/// empty equation, and the right side folded into that.
pub open spec fn canonical_of(left: ValueView, right: ValueView) -> CanonicalView {
    CanonicalView::empty().fold_side(left, true).fold_side(right, false)
}

/// What an input becomes: the canonical equation of the values of the two
/// trees of its tokens, or the error of the first stage that fails.
pub open spec fn simplify(input: Seq<u8>) -> Result<CanonicalView, SimplifierErrorView> {
    match tokens_of(input) {
        Err(error) => Err(SimplifierErrorView::TokenizerError(error)),
        Ok(tokens) => match parse_equation(tokens, 0) {
            Err(error) => Err(SimplifierErrorView::LexerError(error)),
            Ok(equation) => match evaluate(equation.left) {
                Err(error) => Err(SimplifierErrorView::EvaluatorError(error)),
                Ok(left) => match evaluate(equation.right) {
                    Err(error) => Err(SimplifierErrorView::EvaluatorError(error)),
                    Ok(right) => Ok(canonical_of(left, right)),
                },
            },
        },
    }
}

/// The entries of a list of terms as names and coefficients.
pub open spec fn entry_views(entries: Seq<(String, Number)>) -> Seq<(Seq<char>, Number)> {
    Seq::new(entries.len(), |i: int| (entries[i].0@, entries[i].1))
}

/// Whether no name occurs twice.
pub open spec fn distinct_names(entries: Seq<(Seq<char>, Number)>) -> bool {
    forall|i: int, j: int|
        0 <= i < j < entries.len() ==> (#[trigger] entries[i]).0 != (#[trigger] entries[j]).0
}

/// The map from each name to its coefficient.
pub open spec fn terms_map(entries: Seq<(Seq<char>, Number)>) -> Map<Seq<char>, Number>
    decreases entries.len(),
{
    if entries.len() == 0 {
        Map::empty()
    } else {
        terms_map(entries.drop_last()).insert(entries.last().0, entries.last().1)
    }
}

/// The map holds the names of the entries and no others, and gives each
/// name of a list without repetitions its coefficient.
pub proof fn lemma_terms_map(entries: Seq<(Seq<char>, Number)>)
    ensures
        forall|name: Seq<char>| #[trigger]
            terms_map(entries).contains_key(name) <==> exists|i: int|
                0 <= i < entries.len() && (#[trigger] entries[i]).0 == name,
        distinct_names(entries) ==> forall|i: int|
            0 <= i < entries.len() ==> terms_map(entries)[(#[trigger] entries[i]).0] == entries[i].1,
        terms_map(entries).dom().finite(),
    decreases entries.len(),
{
    if entries.len() > 0 {
        let earlier = entries.drop_last();
        lemma_terms_map(earlier);
        assert forall|name: Seq<char>| #[trigger]
            terms_map(entries).contains_key(name) <==> exists|i: int|
                0 <= i < entries.len() && (#[trigger] entries[i]).0 == name by {
            if terms_map(entries).contains_key(name) {
                if name == entries.last().0 {
                    assert(entries[entries.len() - 1].0 == name);
                } else {
                    let i = choose|i: int| 0 <= i < earlier.len() && (#[trigger] earlier[i]).0 == name;
                    assert(entries[i].0 == name);
                }
            }
            if exists|i: int| 0 <= i < entries.len() && (#[trigger] entries[i]).0 == name {
                let i = choose|i: int| 0 <= i < entries.len() && (#[trigger] entries[i]).0 == name;
                if i < entries.len() - 1 {
                    assert(earlier[i].0 == name);
                }
            }
        }
        if distinct_names(entries) {
            assert(distinct_names(earlier)) by {
                assert forall|i: int, j: int| 0 <= i < j < earlier.len() implies (#[trigger] earlier[i]).0
                    != (#[trigger] earlier[j]).0 by {
                    assert(entries[i].0 != entries[j].0);
                }
            }
            assert forall|i: int| 0 <= i < entries.len() implies terms_map(entries)[(
            #[trigger] entries[i]).0] == entries[i].1 by {
                if i < entries.len() - 1 {
                    assert(earlier[i] == entries[i]);
                    assert(entries[i].0 != entries[entries.len() - 1].0);
                }
            }
        }
    }
}

/// Replacing the coefficient of one entry of a list without repetitions
/// replaces it in the map.
pub proof fn lemma_terms_map_update(entries: Seq<(Seq<char>, Number)>, index: int, coefficient: Number)
    requires
        distinct_names(entries),
        0 <= index < entries.len(),
    ensures
        terms_map(entries.update(index, (entries[index].0, coefficient))) == terms_map(
            entries,
        ).insert(entries[index].0, coefficient),
        distinct_names(entries.update(index, (entries[index].0, coefficient))),
    decreases entries.len(),
{
    let name = entries[index].0;
    let updated = entries.update(index, (name, coefficient));
    assert(distinct_names(updated)) by {
        assert forall|i: int, j: int| 0 <= i < j < updated.len() implies (#[trigger] updated[i]).0
            != (#[trigger] updated[j]).0 by {
            assert(entries[i].0 != entries[j].0);
        }
    }
    let earlier = entries.drop_last();
    if index == entries.len() - 1 {
        assert(updated.drop_last() =~= earlier);
        assert(terms_map(updated) =~= terms_map(entries).insert(name, coefficient));
    } else {
        assert(distinct_names(earlier)) by {
            assert forall|i: int, j: int| 0 <= i < j < earlier.len() implies (#[trigger] earlier[i]).0
                != (#[trigger] earlier[j]).0 by {
                assert(entries[i].0 != entries[j].0);
            }
        }
        lemma_terms_map_update(earlier, index, coefficient);
        assert(updated.drop_last() =~= earlier.update(index, (name, coefficient)));
        assert(entries[index].0 != entries[entries.len() - 1].0);
        assert(terms_map(updated) =~= terms_map(entries).insert(name, coefficient));
    }
}

/// An equation in canonical form: the terms, each a variable and its
/// coefficient, and the constant.
#[derive(Debug, PartialEq)]
pub struct CanonicalEquation {
    pub terms: Vec<(String, Number)>,
    pub constant: Number,
}

impl View for CanonicalEquation {
    type V = CanonicalView;

    open spec fn view(&self) -> CanonicalView {
        CanonicalView { terms: terms_map(entry_views(self.terms@)), constant: self.constant }
    }
}

impl CanonicalEquation {
    /// Whether no variable has two terms.
    pub open spec fn well_formed(&self) -> bool {
        distinct_names(entry_views(self.terms@))
    }

    /// No terms, and the constant zero.
    pub fn new() -> (equation: CanonicalEquation)
        ensures
            equation.well_formed(),
            equation@ == CanonicalView::empty(),
    {
        let equation = CanonicalEquation { terms: Vec::new(), constant: Number::Integer(0) };
        assert(entry_views(equation.terms@) =~= Seq::empty());
        equation
    }

    /// The coefficient of `name`, where the variable has a term.
    pub fn get(&self, name: &String) -> (coefficient: Option<&Number>)
        requires
            self.well_formed(),
        ensures
            match coefficient {
                Some(found) => self@.terms.contains_key(name@) && *found == self@.terms[name@],
                None => !self@.terms.contains_key(name@),
            },
    {
        let ghost entries = entry_views(self.terms@);
        let mut index: usize = 0;
        while index < self.terms.len()
            invariant
                entries == entry_views(self.terms@),
                distinct_names(entries),
                index <= self.terms.len(),
                forall|i: int| 0 <= i < index ==> (#[trigger] entries[i]).0 != name@,
            decreases self.terms.len() - index,
        {
            if same_name(&self.terms[index].0, name) {
                proof {
                    lemma_terms_map(entries);
                    assert(entries[index as int].0 == name@);
                }
                return Some(&self.terms[index].1);
            }
            index = index + 1;
        }
        proof {
            lemma_terms_map(entries);
        }
        None
    }

    /// Adds `amount` to the coefficient of `name`, which starts from zero
    /// where the variable has no term yet.
    pub fn add_term(&mut self, name: String, amount: Number)
        requires
            old(self).well_formed(),
        ensures
            final(self).well_formed(),
            final(self)@ == old(self)@.add_term(name@, amount),
    {
        let ghost entries = entry_views(self.terms@);
        proof {
            lemma_terms_map(entries);
        }
        let mut index: usize = 0;
        while index < self.terms.len()
            invariant
                *self == *old(self),
                entries == entry_views(self.terms@),
                distinct_names(entries),
                index <= self.terms.len(),
                forall|i: int| 0 <= i < index ==> (#[trigger] entries[i]).0 != name@,
            decreases self.terms.len() - index,
        {
            if same_name(&self.terms[index].0, &name) {
                let mut entry = (name, Number::Integer(0));
                self.terms.set_and_swap(index, &mut entry);
                let (known, current) = entry;
                let ghost total = Number::sum(current, amount);
                self.terms.set(index, (known, current.plus(amount)));
                proof {
                    lemma_terms_map(entries);
                    assert(entries[index as int].0 == name@);
                    assert(entries[index as int].1 == current);
                    assert(entry_views(self.terms@) =~= entries.update(
                        index as int,
                        (entries[index as int].0, total),
                    ));
                    lemma_terms_map_update(entries, index as int, total);
                }
                return ;
            }
            index = index + 1;
        }
        let ghost added = (name@, Number::sum(Number::Integer(0), amount));
        self.terms.push((name, Number::Integer(0).plus(amount)));
        proof {
            assert(entry_views(self.terms@) =~= entries.push(added));
            assert(entry_views(self.terms@).drop_last() =~= entries);
            assert(!terms_map(entries).contains_key(added.0));
            let after = entry_views(self.terms@);
            assert forall|i: int, j: int| 0 <= i < j < after.len() implies (#[trigger] after[i]).0 != (
            #[trigger] after[j]).0 by {
                if j < entries.len() {
                    assert(entries[i].0 != entries[j].0);
                } else {
                    assert(entries[i].0 != name@);
                }
            }
        }
    }
}


/// What the result of a simplification stands for: the value of the
/// equation, or the value of the error.
pub open spec fn simplified(result: SimplifierResult<CanonicalEquation>) -> Result<
    CanonicalView,
    SimplifierErrorView,
> {
    match result {
        Ok(equation) => Ok(equation@),
        Err(error) => Err(error@),
    }
}

/// The simplifier. It holds no state: every call stands alone.
pub struct Simplifier();

impl Simplifier {
    /// The canonical form of the equation that `user_input` spells, as
    /// [`simplify`] states it over the bytes of the input, or the error of
    /// the first stage that fails. No variable has two terms in the result.
    pub fn simplify_equation(&self, user_input: &str) -> (result: SimplifierResult<
        CanonicalEquation,
    >)
        ensures
            simplified(result) == simplify(user_input.spec_bytes()),
            result matches Ok(equation) ==> equation.well_formed(),
    {
        let tokens = match tokenize(user_input.as_bytes_vec()) {
            Ok(tokens) => tokens,
            Err(error) => {
                return Err(SimplifierError::from(error));
            },
        };
        let mut lexer = Lexer::new(tokens);
        let equation = match lexer.equation() {
            Ok(equation) => equation,
            Err(error) => {
                return Err(SimplifierError::from(error));
            },
        };
        let evaluator = Evaluator::new();
        let left = match evaluator.evaluate_expression(&equation.left) {
            Ok(value) => value,
            Err(error) => {
                return Err(SimplifierError::from(error));
            },
        };
        let right = match evaluator.evaluate_expression(&equation.right) {
            Ok(value) => value,
            Err(error) => {
                return Err(SimplifierError::from(error));
            },
        };
        let mut canonical = CanonicalEquation::new();
        match left {
            Value::Monomial { coefficient, variable } => match variable {
                Some(variable) => canonical.add_term(
                    variable,
                    coefficient.times(Number::Integer(1)),
                ),
                None => {
                    let mut constant = Number::Integer(0);
                    core::mem::swap(&mut canonical.constant, &mut constant);
                    canonical.constant = constant.plus(coefficient);
                },
            },
            Value::Sum(values) => {
                proof {
                    lemma_sum_view(values);
                }
                self.simplify_into_map(&values, &mut canonical, &Number::Integer(1))
            },
        }
        match right {
            Value::Monomial { coefficient, variable } => match variable {
                Some(variable) => canonical.add_term(
                    variable,
                    coefficient.times(Number::Integer(-1)),
                ),
                None => {
                    let mut constant = Number::Integer(0);
                    core::mem::swap(&mut canonical.constant, &mut constant);
                    canonical.constant = constant.plus(coefficient.negated());
                },
            },
            Value::Sum(values) => {
                proof {
                    lemma_sum_view(values);
                }
                self.simplify_into_map(&values, &mut canonical, &Number::Integer(-1))
            },
        }
        Ok(canonical)
    }

    /// Folds the elements of a sum into `equation`, first to last, as
    /// [`CanonicalView::fold_values`] states it.
    fn simplify_into_map(
        &self,
        values: &Vec<Value>,
        equation: &mut CanonicalEquation,
        multiply_by: &Number,
    )
        requires
            old(equation).well_formed(),
        ensures
            final(equation).well_formed(),
            final(equation)@ == old(equation)@.fold_values(value_views(values@), *multiply_by),
        decreases values,
    {
        let ghost views = value_views(values@);
        let ghost start = equation@;
        let mut index: usize = 0;
        assert(views.take(0) =~= Seq::<ValueView>::empty());
        while index < values.len()
            invariant
                views == value_views(values@),
                index <= values.len(),
                equation.well_formed(),
                equation@ == start.fold_values(views.take(index as int), *multiply_by),
            decreases values.len() - index,
        {
            proof {
                assert(views.take(index + 1).drop_last() =~= views.take(index as int));
            }
            let ghost before = equation@;
            match &values[index] {
                Value::Monomial { coefficient, variable } => match variable {
                    Some(variable) => {
                        equation.add_term(
                            variable.clone(),
                            coefficient.clone().times(multiply_by.clone()),
                        );
                    },
                    None => {
                        let mut constant = Number::Integer(0);
                        core::mem::swap(&mut equation.constant, &mut constant);
                        equation.constant = constant.minus(
                            coefficient.clone().times(multiply_by.clone()),
                        );
                    },
                },
                Value::Sum(inner) => {
                    proof {
                        lemma_sum_view(*inner);
                    }
                    self.simplify_into_map(inner, equation, multiply_by);
                },
            }
            assert(equation@ == before.fold_value(views[index as int], *multiply_by));
            index = index + 1;
        }
        proof {
            assert(views.take(index as int) =~= views);
        }
    }
}

} // verus!
