//! Algebraic values: what an expression reduces to.
use vstd::prelude::*;

use crate::number::Number;

verus! {

/// A coefficient, with or without one variable to the first power; or a sum
/// of values, which may themselves be sums. Nothing of a higher degree can
/// be written down.
#[derive(Debug, PartialEq)]
pub enum Value {
    Sum(Vec<Value>),
    Monomial { coefficient: Number, variable: Option<String> },
}

/// The mathematical value of a [`Value`].
pub enum ValueView {
    Sum(Seq<ValueView>),
    Monomial { coefficient: Number, variable: Option<Seq<char>> },
}

/// The value of an optional name.
pub open spec fn name_view(name: Option<String>) -> Option<Seq<char>> {
    match name {
        Some(text) => Some(text@),
        None => None,
    }
}

/// The value of a [`Value`]: the same shape over names as character
/// sequences.
pub open spec fn value_view(value: Value) -> ValueView
    decreases value,
{
    match value {
        Value::Sum(values) => ValueView::Sum(
            Seq::new(
                values@.len(),
                |i: int|
                    if 0 <= i < values@.len() {
                        value_view(values@[i])
                    } else {
                        arbitrary()
                    },
            ),
        ),
        Value::Monomial { coefficient, variable } => ValueView::Monomial {
            coefficient,
            variable: name_view(variable),
        },
    }
}

impl View for Value {
    type V = ValueView;

    open spec fn view(&self) -> ValueView {
        value_view(*self)
    }
}

/// The values of a run of values, in order.
pub open spec fn value_views(values: Seq<Value>) -> Seq<ValueView> {
    Seq::new(values.len(), |i: int| values[i]@)
}

/// The value of a sum is the sum of the values of its elements.
pub proof fn lemma_sum_view(values: Vec<Value>)
    ensures
        Value::Sum(values)@ == ValueView::Sum(value_views(values@)),
{
    let sum = Value::Sum(values);
    let listed = Seq::new(
                    values@.len(),
                    |i: int|
                        if 0 <= i < values@.len() {
                            value_view(values@[i])
                        } else {
                            arbitrary()
                        },
                );
    assert(listed.len() == values@.len());
    assert(sum@->Sum_0 =~= value_views(values@));
}

impl ValueView {
    /// The constant `coefficient`.
    pub open spec fn constant(coefficient: Number) -> ValueView {
        ValueView::Monomial { coefficient, variable: None }
    }

    /// `coefficient` times the variable `name`.
    pub open spec fn monomial(coefficient: Number, name: Seq<char>) -> ValueView {
        ValueView::Monomial { coefficient, variable: Some(name) }
    }

    /// How deep sums are nested in the value: zero for a monomial.
    pub open spec fn depth(self) -> nat
        decreases self,
    {
        match self {
            ValueView::Monomial { coefficient, variable } => 0,
            ValueView::Sum(values) => 1 + deepest(values),
        }
    }

    /// Whether the value is a monomial or a sum of monomials.
    pub open spec fn flat(self) -> bool {
        match self {
            ValueView::Monomial { coefficient, variable } => true,
            ValueView::Sum(values) => monomials_only(values),
        }
    }

    /// The value with the sign of every coefficient flipped, through sums
    /// of any depth.
    pub open spec fn negate(self) -> ValueView
        decreases self,
    {
        match self {
            ValueView::Monomial { coefficient, variable } => ValueView::Monomial {
                coefficient: Number::opposite(coefficient),
                variable,
            },
            ValueView::Sum(values) => ValueView::Sum(
                Seq::new(
                    values.len(),
                    |i: int|
                        if 0 <= i < values.len() {
                            values[i].negate()
                        } else {
                            arbitrary()
                        },
                ),
            ),
        }
    }

    /// The elements of a sum; a monomial alone.
    pub open spec fn as_list(self) -> Seq<ValueView> {
        match self {
            ValueView::Monomial { coefficient, variable } => seq![self],
            ValueView::Sum(values) => values,
        }
    }

    /// `self + right`. Two monomials in the same variable, or two constants,
    /// add their coefficients; two other monomials make a sum of two, left
    /// first. A monomial joins a sum at its end, whichever side it stands
    /// on. Two sums are joined, left first.
    pub open spec fn plus(self, right: ValueView) -> ValueView {
        match (self, right) {
            (
                ValueView::Monomial { coefficient: c1, variable: v1 },
                ValueView::Monomial { coefficient: c2, variable: v2 },
            ) => if v1 == v2 {
                ValueView::Monomial { coefficient: Number::sum(c1, c2), variable: v1 }
            } else {
                ValueView::Sum(seq![self, right])
            },
            (ValueView::Sum(values), ValueView::Monomial { coefficient, variable }) => ValueView::Sum(
                values.push(right),
            ),
            (ValueView::Monomial { coefficient, variable }, ValueView::Sum(values)) => ValueView::Sum(
                values.push(self),
            ),
            (ValueView::Sum(left_values), ValueView::Sum(right_values)) => ValueView::Sum(
                left_values + right_values,
            ),
        }
    }

    /// `self - right`: `right` negated, added to `self`.
    pub open spec fn minus(self, right: ValueView) -> ValueView {
        self.plus(right.negate())
    }
}

/// Whether each of `values` is a monomial.
pub open spec fn monomials_only(values: Seq<ValueView>) -> bool {
    forall|i: int| 0 <= i < values.len() ==> (#[trigger] values[i]) is Monomial
}

/// Each of `values` negated, in order.
pub open spec fn negate_all(values: Seq<ValueView>) -> Seq<ValueView> {
    Seq::new(values.len(), |i: int| values[i].negate())
}

/// Negating a sum negates each of its elements.
pub proof fn lemma_negate_sum(values: Seq<ValueView>)
    ensures
        ValueView::Sum(values).negate() == ValueView::Sum(negate_all(values)),
{
    let listed = Seq::new(
        values.len(),
        |i: int|
            if 0 <= i < values.len() {
                values[i].negate()
            } else {
                arbitrary()
            },
    );
    assert(listed.len() == values.len());
    assert(ValueView::Sum(values).negate()->Sum_0 =~= negate_all(values));
}

/// The depth of the deepest of `values`; zero for none.
pub open spec fn deepest(values: Seq<ValueView>) -> nat
    decreases values,
{
    if values.len() == 0 {
        0
    } else {
        let rest = deepest(values.drop_last());
        let last = values.last().depth();
        if last > rest {
            last
        } else {
            rest
        }
    }
}


/// Every one of `values` is at most as deep as the deepest.
pub proof fn lemma_deepest_bounds(values: Seq<ValueView>, index: int)
    requires
        0 <= index < values.len(),
    ensures
        values[index].depth() <= deepest(values),
    decreases values.len(),
{
    if index < values.len() - 1 {
        lemma_deepest_bounds(values.drop_last(), index);
    }
}

/// A value alone is the deepest of its list; the elements of a sum are
/// less deep than the sum.
pub proof fn lemma_as_list_depth(value: ValueView)
    ensures
        value is Monomial ==> deepest(value.as_list()) == 0,
        value is Sum ==> deepest(value.as_list()) + 1 == value.depth(),
{
    if value is Monomial {
        let list = value.as_list();
        assert(list.drop_last() =~= Seq::<ValueView>::empty());
        assert(deepest(list.drop_last()) == 0);
        assert(list.last() == value);
        assert(value.depth() == 0);
    }
}

/// Whether two names are the same text.
pub fn same_name(left: &String, right: &String) -> (same: bool)
    ensures
        same == (left@ == right@),
{
    left.eq(right)
}

/// A copy of an optional name.
pub fn clone_name(name: &Option<String>) -> (copy: Option<String>)
    ensures
        name_view(copy) == name_view(*name),
{
    match name {
        Some(text) => Some(text.clone()),
        None => None,
    }
}

impl Value {
    /// The constant `coefficient`.
    pub fn new_constant(coefficient: Number) -> (value: Value)
        ensures
            value@ == ValueView::constant(coefficient),
    {
        Value::Monomial { coefficient, variable: None }
    }

    /// `coefficient` times `variable`.
    pub fn new_monomial(coefficient: Number, variable: String) -> (value: Value)
        ensures
            value@ == ValueView::monomial(coefficient, variable@),
    {
        Value::Monomial { coefficient, variable: Some(variable) }
    }

    /// The value with the sign of every coefficient flipped.
    pub fn negate(self) -> (value: Value)
        ensures
            value@ == self@.negate(),
    {
        self.negated()
    }

    fn negated(&self) -> (value: Value)
        ensures
            value@ == self@.negate(),
        decreases self,
    {
        match self {
            Value::Monomial { coefficient, variable } => Value::Monomial {
                coefficient: coefficient.clone().negated(),
                variable: clone_name(variable),
            },
            Value::Sum(values) => {
                let mut result: Vec<Value> = Vec::new();
                let mut index: usize = 0;
                while index < values.len()
                    invariant
                        *self matches Value::Sum(inner) && inner == *values,
                        index <= values.len(),
                        result@.len() == index,
                        forall|i: int| 0 <= i < index ==> (#[trigger] result@[i])@ == values@[i]@.negate(),
                    decreases values.len() - index,
                {
                    result.push(values[index].negated());
                    index = index + 1;
                }
                proof {
                    lemma_sum_view(result);
                    lemma_sum_view(*values);
                    lemma_negate_sum(value_views(values@));
                    assert(value_views(result@) =~= negate_all(value_views(values@)));
                }
                Value::Sum(result)
            },
        }
    }

    /// `self + right`, as [`ValueView::plus`] states it.
    pub fn plus(self, right: Value) -> (value: Value)
        ensures
            value@ == self@.plus(right@),
    {
        match (self, right) {
            (
                Value::Monomial { coefficient: c1, variable: v1 },
                Value::Monomial { coefficient: c2, variable: v2 },
            ) => {
                let same = match (&v1, &v2) {
                    (Some(a), Some(b)) => same_name(a, b),
                    (None, None) => true,
                    _ => false,
                };
                if same {
                    Value::Monomial { coefficient: c1.plus(c2), variable: v1 }
                } else {
                    let left = Value::Monomial { coefficient: c1, variable: v1 };
                    let right = Value::Monomial { coefficient: c2, variable: v2 };
                    let ghost pair = seq![left@, right@];
                    let mut values: Vec<Value> = Vec::new();
                    values.push(left);
                    values.push(right);
                    proof {
                        lemma_sum_view(values);
                        assert(value_views(values@) =~= pair);
                    }
                    Value::Sum(values)
                }
            },
            (Value::Sum(values), Value::Monomial { coefficient, variable }) => {
                let mut values = values;
                let ghost before = values;
                let right = Value::Monomial { coefficient, variable };
                let ghost added = right@;
                values.push(right);
                proof {
                    lemma_sum_view(before);
                    lemma_sum_view(values);
                    assert(value_views(values@) =~= value_views(before@).push(added));
                }
                Value::Sum(values)
            },
            (Value::Monomial { coefficient, variable }, Value::Sum(values)) => {
                let mut values = values;
                let ghost before = values;
                let left = Value::Monomial { coefficient, variable };
                let ghost added = left@;
                values.push(left);
                proof {
                    lemma_sum_view(before);
                    lemma_sum_view(values);
                    assert(value_views(values@) =~= value_views(before@).push(added));
                }
                Value::Sum(values)
            },
            (Value::Sum(left_sum), Value::Sum(right_sum)) => {
                let mut left_sum = left_sum;
                let mut right_sum = right_sum;
                let ghost left_before = left_sum;
                let ghost right_before = right_sum;
                left_sum.append(&mut right_sum);
                proof {
                    lemma_sum_view(left_before);
                    lemma_sum_view(right_before);
                    lemma_sum_view(left_sum);
                    assert(value_views(left_sum@) =~= value_views(left_before@) + value_views(
                        right_before@,
                    ));
                }
                Value::Sum(left_sum)
            },
        }
    }
}

} // verus!
