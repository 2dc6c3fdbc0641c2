//! The parser: tokens to the two expression trees of an equation.
//!
//! The grammar, from the loosest binding to the tightest:
//!
//! ```text
//! equation   := expression "=" expression
//! expression := factor (("+"|"-") factor)*
//! factor     := monomial (("*"|"/") monomial)*
//! monomial   := "-" monomial | primary suffix?
//! primary    := NUMBER | IDENTIFIER | "(" expression ")"
//! ```
//!
//! A primary directly followed by a name or by `(` is multiplied with the
//! monomial that starts there; a primary followed by `^` takes exactly one
//! primary as its exponent. Each rule is a function of the token run and of
//! a place in it: [`parse_equation`] and the functions it is built from say
//! what the parser returns.
use vstd::prelude::*;
use vstd::string::*;

pub mod error;

pub use error::{LexerError, LexerErrorView, LexerResult};

use crate::expression::{Expression, ExpressionType, ExpressionTypeView, ExpressionView};
use crate::tokenizer::{Token, TokenType, TokenTypeView, TokenView, token_views};

verus! {

/// The two sides of an equation.
#[derive(Debug, PartialEq)]
pub struct Equation {
    pub left: Expression,
    pub right: Expression,
}

/// The mathematical value of an [`Equation`].
pub struct EquationView {
    pub left: ExpressionView,
    pub right: ExpressionView,
}

impl View for Equation {
    type V = EquationView;

    open spec fn view(&self) -> EquationView {
        EquationView { left: self.left@, right: self.right@ }
    }
}

/// What a rule yields: the tree and the place behind it, or an error.
pub type Parsed = Result<(ExpressionView, int), LexerErrorView>;

/// The column behind the last token: that of the last token plus the
/// length of its text, or one where there is no token. It is where an
/// input that ends too early fails.
pub open spec fn end_column(tokens: Seq<TokenView>) -> usize {
    if tokens.len() == 0 {
        1
    } else if tokens.last().column + tokens.last().lexeme.len() <= usize::MAX {
        (tokens.last().column + tokens.last().lexeme.len()) as usize
    } else {
        usize::MAX
    }
}

/// `parsed`, where it ends behind `position` and within the tokens. Every
/// rule consumes at least one token and none reads past the end
/// ([`lemma_parse_advances`]), so this changes no result of a rule applied
/// at `position`; it carries the termination argument of the rules that
/// continue where another one stopped.
pub open spec fn beyond(tokens: Seq<TokenView>, position: int, parsed: Parsed) -> Parsed {
    match parsed {
        Ok((expression, next)) => if position < next <= tokens.len() {
            parsed
        } else {
            Err(LexerErrorView::UnexpectedEof { column: end_column(tokens) })
        },
        Err(error) => parsed,
    }
}

/// `+` or `-`.
pub open spec fn is_sum_operator(token_type: TokenTypeView) -> bool {
    token_type is Plus || token_type is Minus
}

/// `*` or `/`.
pub open spec fn is_product_operator(token_type: TokenTypeView) -> bool {
    token_type is Star || token_type is Slash
}

/// A name or `(`: what, placed directly behind a primary, multiplies it.
pub open spec fn starts_implicit_product(token_type: TokenTypeView) -> bool {
    token_type is Identifier || token_type is LeftParen
}

/// The node for `left operator right`, pointing at `token`.
pub open spec fn binary(left: ExpressionView, operator: TokenView, right: ExpressionView, token: TokenView) -> ExpressionView {
    ExpressionView {
        expression_type: ExpressionTypeView::Binary {
            left: Box::new(left),
            operator,
            right: Box::new(right),
        },
        token,
    }
}

/// The multiplication sign that stands for a juxtaposition at `column`.
pub open spec fn implicit_star(column: usize) -> TokenView {
    TokenView { token_type: TokenTypeView::Star, lexeme: "*"@, column }
}

/// What the grammar does where it requires a token of a kind at
/// `position`: nothing where that token is there, else the error.
pub open spec fn expect(tokens: Seq<TokenView>, position: int, expected: TokenTypeView) -> Option<
    LexerErrorView,
> {
    if 0 <= position < tokens.len() {
        if tokens[position].token_type == expected {
            None
        } else {
            Some(
                LexerErrorView::WrongToken {
                    found: tokens[position].token_type,
                    expected,
                    column: tokens[position].column,
                },
            )
        }
    } else {
        Some(LexerErrorView::ExpectedTokenFoundEof { expected, column: end_column(tokens) })
    }
}

/// `primary := NUMBER | IDENTIFIER | "(" expression ")"`
pub open spec fn parse_primary(tokens: Seq<TokenView>, position: int) -> Parsed
    decreases tokens.len() - position, 0nat,
{
    if 0 <= position < tokens.len() {
        let token = tokens[position];
        match token.token_type {
            TokenTypeView::Number(value) => Ok(
                (
                    ExpressionView { expression_type: ExpressionTypeView::Number(value), token },
                    position + 1,
                ),
            ),
            TokenTypeView::Identifier(name) => Ok(
                (
                    ExpressionView { expression_type: ExpressionTypeView::Variable(name), token },
                    position + 1,
                ),
            ),
            TokenTypeView::LeftParen => parse_group(tokens, position + 1, token),
            other => Err(LexerErrorView::ExpectedPrimary { found: other, column: token.column }),
        }
    } else {
        Err(LexerErrorView::UnexpectedEof { column: end_column(tokens) })
    }
}

/// The rest of a group whose `(`, the token `open`, ends just before
/// `position`: an expression and `)`.
pub open spec fn parse_group(tokens: Seq<TokenView>, position: int, open: TokenView) -> Parsed
    decreases tokens.len() - position, 6nat,
{
    match parse_expression(tokens, position) {
        Err(error) => Err(error),
        Ok((inner, next)) => match expect(tokens, next, TokenTypeView::RightParen) {
            Some(error) => Err(error),
            None => Ok(
                (
                    ExpressionView {
                        expression_type: ExpressionTypeView::Grouping(Box::new(inner)),
                        token: open,
                    },
                    next + 1,
                ),
            ),
        },
    }
}

/// The operand of `^`: one primary. Whatever makes the primary fail, the
/// error names the token at `position`.
pub open spec fn parse_exponent(tokens: Seq<TokenView>, position: int) -> Parsed
    decreases tokens.len() - position, 1nat,
{
    if 0 <= position < tokens.len() {
        match parse_primary(tokens, position) {
            Ok(parsed) => Ok(parsed),
            Err(error) => Err(
                LexerErrorView::InvalidExponent {
                    found: tokens[position].token_type,
                    column: tokens[position].column,
                },
            ),
        }
    } else {
        Err(LexerErrorView::UnexpectedEof { column: end_column(tokens) })
    }
}

/// `monomial := "-" monomial | primary suffix?`
///
/// A negation points at the last token of its operand. An implicit product
/// points at the token that starts its right operand, and its operator is
/// [`implicit_star`] at that token's column.
pub open spec fn parse_monomial(tokens: Seq<TokenView>, position: int) -> Parsed
    decreases tokens.len() - position, 2nat,
{
    if 0 <= position < tokens.len() && tokens[position].token_type is Minus {
        match beyond(tokens, position, parse_monomial(tokens, position + 1)) {
            Err(error) => Err(error),
            Ok((operand, next)) => Ok(
                (
                    ExpressionView {
                        expression_type: ExpressionTypeView::Negation(Box::new(operand)),
                        token: tokens[next - 1],
                    },
                    next,
                ),
            ),
        }
    } else {
        match beyond(tokens, position, parse_primary(tokens, position)) {
            Err(error) => Err(error),
            Ok((primary, next)) => if next < tokens.len() {
                let follower = tokens[next];
                if starts_implicit_product(follower.token_type) {
                    match parse_monomial(tokens, next) {
                        Err(error) => Err(error),
                        Ok((right, after)) => Ok(
                            (binary(primary, implicit_star(follower.column), right, follower), after),
                        ),
                    }
                } else if follower.token_type is Hat {
                    match parse_exponent(tokens, next + 1) {
                        Err(error) => Err(error),
                        Ok((exponent, after)) => Ok(
                            (binary(primary, follower, exponent, follower), after),
                        ),
                    }
                } else {
                    Ok((primary, next))
                }
            } else {
                Ok((primary, next))
            },
        }
    }
}

/// What follows a factor whose first monomials make up `left`:
/// `(("*"|"/") monomial)*`, joined to the left.
pub open spec fn factor_rest(tokens: Seq<TokenView>, left: ExpressionView, position: int) -> Parsed
    decreases tokens.len() - position, 3nat,
{
    if 0 <= position < tokens.len() && is_product_operator(tokens[position].token_type) {
        match beyond(tokens, position, parse_monomial(tokens, position + 1)) {
            Err(error) => Err(error),
            Ok((right, next)) => factor_rest(
                tokens,
                binary(left, tokens[position], right, tokens[position]),
                next,
            ),
        }
    } else {
        Ok((left, position))
    }
}

/// `factor := monomial (("*"|"/") monomial)*`
pub open spec fn parse_factor(tokens: Seq<TokenView>, position: int) -> Parsed
    decreases tokens.len() - position, 4nat,
{
    match beyond(tokens, position, parse_monomial(tokens, position)) {
        Err(error) => Err(error),
        Ok((first, next)) => factor_rest(tokens, first, next),
    }
}

/// What follows an expression whose first factors make up `left`:
/// `(("+"|"-") factor)*`, joined to the left.
pub open spec fn expression_rest(tokens: Seq<TokenView>, left: ExpressionView, position: int) -> Parsed
    decreases tokens.len() - position, 3nat,
{
    if 0 <= position < tokens.len() && is_sum_operator(tokens[position].token_type) {
        match beyond(tokens, position, parse_factor(tokens, position + 1)) {
            Err(error) => Err(error),
            Ok((right, next)) => expression_rest(
                tokens,
                binary(left, tokens[position], right, tokens[position]),
                next,
            ),
        }
    } else {
        Ok((left, position))
    }
}

/// `expression := factor (("+"|"-") factor)*`
pub open spec fn parse_expression(tokens: Seq<TokenView>, position: int) -> Parsed
    decreases tokens.len() - position, 5nat,
{
    match beyond(tokens, position, parse_factor(tokens, position)) {
        Err(error) => Err(error),
        Ok((first, next)) => expression_rest(tokens, first, next),
    }
}

/// `equation := expression "=" expression`, from `position` to the end of
/// the tokens.
pub open spec fn parse_equation(tokens: Seq<TokenView>, position: int) -> Result<
    EquationView,
    LexerErrorView,
> {
    match parse_expression(tokens, position) {
        Err(error) => Err(error),
        Ok((left, next)) => match expect(tokens, next, TokenTypeView::Equal) {
            Some(error) => Err(error),
            None => match parse_expression(tokens, next + 1) {
                Err(error) => Err(error),
                Ok((right, end)) => if 0 <= end < tokens.len() {
                    Err(
                        LexerErrorView::ExpectedEof {
                            found: tokens[end].token_type,
                            column: tokens[end].column,
                        },
                    )
                } else {
                    Ok(EquationView { left, right })
                },
            },
        },
    }
}


/// What holds of every tree a rule yields from `position`: the rule
/// consumed at least one token, read none past the end, and built no
/// function call.
pub open spec fn advances(tokens: Seq<TokenView>, position: int, parsed: Parsed) -> bool {
    parsed matches Ok((expression, next)) ==> position < next <= tokens.len()
        && expression.call_free()
}

/// What holds of every tree that the tail of a repetition yields from
/// `position`: the tail read no token past the end and built no function
/// call.
pub open spec fn continues(tokens: Seq<TokenView>, position: int, parsed: Parsed) -> bool {
    parsed matches Ok((expression, next)) ==> position <= next <= tokens.len()
        && expression.call_free()
}

/// Every rule consumes at least one token, reads none past the end of the
/// tokens and builds a tree without function calls.
pub proof fn lemma_parse_advances(tokens: Seq<TokenView>, position: int)
    requires
        0 <= position <= tokens.len(),
    ensures
        advances(tokens, position, parse_primary(tokens, position)),
        advances(tokens, position, parse_exponent(tokens, position)),
        advances(tokens, position, parse_monomial(tokens, position)),
        advances(tokens, position, parse_factor(tokens, position)),
        advances(tokens, position, parse_expression(tokens, position)),
{
    lemma_primary_advances(tokens, position);
    lemma_monomial_advances(tokens, position);
    lemma_factor_advances(tokens, position);
    lemma_expression_advances(tokens, position);
}

proof fn lemma_primary_advances(tokens: Seq<TokenView>, position: int)
    requires
        0 <= position <= tokens.len(),
    ensures
        advances(tokens, position, parse_primary(tokens, position)),
        advances(tokens, position, parse_exponent(tokens, position)),
    decreases tokens.len() - position, 0nat,
{
    if position < tokens.len() && tokens[position].token_type is LeftParen {
        lemma_expression_advances(tokens, position + 1);
    }
}

proof fn lemma_monomial_advances(tokens: Seq<TokenView>, position: int)
    requires
        0 <= position <= tokens.len(),
    ensures
        advances(tokens, position, parse_monomial(tokens, position)),
    decreases tokens.len() - position, 2nat,
{
    if position < tokens.len() && tokens[position].token_type is Minus {
        lemma_monomial_advances(tokens, position + 1);
    } else {
        lemma_primary_advances(tokens, position);
        if let Ok((primary, next)) = parse_primary(tokens, position) {
            if next < tokens.len() {
                if starts_implicit_product(tokens[next].token_type) {
                    lemma_monomial_advances(tokens, next);
                } else if tokens[next].token_type is Hat {
                    lemma_primary_advances(tokens, next + 1);
                }
            }
        }
    }
}

proof fn lemma_factor_rest_continues(tokens: Seq<TokenView>, left: ExpressionView, position: int)
    requires
        0 <= position <= tokens.len(),
        left.call_free(),
    ensures
        continues(tokens, position, factor_rest(tokens, left, position)),
    decreases tokens.len() - position, 3nat,
{
    if position < tokens.len() && is_product_operator(tokens[position].token_type) {
        lemma_monomial_advances(tokens, position + 1);
        if let Ok((right, next)) = parse_monomial(tokens, position + 1) {
            lemma_factor_rest_continues(
                tokens,
                binary(left, tokens[position], right, tokens[position]),
                next,
            );
        }
    }
}

proof fn lemma_factor_advances(tokens: Seq<TokenView>, position: int)
    requires
        0 <= position <= tokens.len(),
    ensures
        advances(tokens, position, parse_factor(tokens, position)),
    decreases tokens.len() - position, 4nat,
{
    lemma_monomial_advances(tokens, position);
    if let Ok((first, next)) = parse_monomial(tokens, position) {
        lemma_factor_rest_continues(tokens, first, next);
    }
}

proof fn lemma_expression_rest_continues(tokens: Seq<TokenView>, left: ExpressionView, position: int)
    requires
        0 <= position <= tokens.len(),
        left.call_free(),
    ensures
        continues(tokens, position, expression_rest(tokens, left, position)),
    decreases tokens.len() - position, 3nat,
{
    if position < tokens.len() && is_sum_operator(tokens[position].token_type) {
        lemma_factor_advances(tokens, position + 1);
        if let Ok((right, next)) = parse_factor(tokens, position + 1) {
            lemma_expression_rest_continues(
                tokens,
                binary(left, tokens[position], right, tokens[position]),
                next,
            );
        }
    }
}

proof fn lemma_expression_advances(tokens: Seq<TokenView>, position: int)
    requires
        0 <= position <= tokens.len(),
    ensures
        advances(tokens, position, parse_expression(tokens, position)),
    decreases tokens.len() - position, 5nat,
{
    lemma_factor_advances(tokens, position);
    if let Ok((first, next)) = parse_factor(tokens, position) {
        lemma_expression_rest_continues(tokens, first, next);
    }
}

/// Both sides of a parsed equation are free of function calls.
pub proof fn lemma_equation_call_free(tokens: Seq<TokenView>, position: int)
    requires
        0 <= position <= tokens.len(),
    ensures
        parse_equation(tokens, position) matches Ok(equation) ==> equation.left.call_free()
            && equation.right.call_free(),
{
    lemma_parse_advances(tokens, position);
    if let Ok((left, next)) = parse_expression(tokens, position) {
        if expect(tokens, next, TokenTypeView::Equal) is None {
            lemma_parse_advances(tokens, next + 1);
        }
    }
}


/// Whether `result`, reached with the parser at `end`, is what `expected`
/// says: the tree with that value and the parser behind it, or the error
/// with that value.
pub open spec fn parsed_as(result: LexerResult<Expression>, end: int, expected: Parsed) -> bool {
    match expected {
        Ok((expression, next)) => result matches Ok(tree) && tree@ == expression && end == next,
        Err(error) => result matches Err(failure) && failure@ == error,
    }
}

/// What a parsed equation stands for: its value, or the value of the error.
pub open spec fn equation_outcome(result: LexerResult<Equation>) -> Result<
    EquationView,
    LexerErrorView,
> {
    match result {
        Ok(equation) => Ok(equation@),
        Err(error) => Err(error@),
    }
}

/// A parser over a run of tokens.
pub struct Lexer {
    tokens: Vec<Token>,
    current: usize,
}

impl Lexer {
    #[verifier::type_invariant]
    spec fn well_formed(&self) -> bool {
        self.current <= self.tokens.len()
    }

    /// The values of the tokens.
    pub closed spec fn tokens(&self) -> Seq<TokenView> {
        token_views(self.tokens@)
    }

    /// How many tokens have been consumed.
    pub closed spec fn position(&self) -> int {
        self.current as int
    }

    /// A parser at the start of `tokens`.
    pub fn new(tokens: Vec<Token>) -> (parser: Self)
        ensures
            parser.tokens() == token_views(tokens@),
            parser.position() == 0,
    {
        Self { tokens, current: 0 }
    }

    /// Parses one equation that reaches to the end of the tokens.
    ///
    /// The result is that of [`parse_equation`] from the place where the
    /// parser stands: the two trees, or the error of the first rule that
    /// fails. The trees hold no function call, and a parser that succeeds
    /// has consumed every token.
    pub fn equation(&mut self) -> (result: LexerResult<Equation>)
        ensures
            final(self).tokens() == old(self).tokens(),
            0 <= old(self).position() <= old(self).tokens().len(),
            equation_outcome(result) == parse_equation(old(self).tokens(), old(self).position()),
            result matches Ok(equation) ==> {
                &&& equation.left@.call_free()
                &&& equation.right@.call_free()
                &&& final(self).position() == old(self).tokens().len()
            },
    {
        let ghost views = token_views(self.tokens@);
        let ghost start = self.current as int;
        proof {
            use_type_invariant(&*self);
            lemma_parse_advances(views, start);
        }
        let left = match self.expression() {
            Ok(left) => left,
            Err(error) => {
                return Err(error);
            },
        };
        match self.expect_token(TokenType::Equal) {
            Some(error) => {
                return Err(error);
            },
            None => {},
        }
        proof {
            use_type_invariant(&*self);
            lemma_parse_advances(token_views(self.tokens@), self.current as int);
        }
        let right = match self.expression() {
            Ok(right) => right,
            Err(error) => {
                return Err(error);
            },
        };
        match self.peek() {
            Some(token) => Err(
                LexerError::ExpectedEof { found: token.token_type.clone(), column: token.column },
            ),
            None => {
                proof {
                    use_type_invariant(&*self);
                    lemma_equation_call_free(views, start);
                }
                Ok(Equation { left, right })
            },
        }
    }

    /// Consumes the token of the kind `expected`, which has no payload;
    /// without it, consumes nothing and returns the error.
    fn expect_token(&mut self, expected: TokenType) -> (failure: Option<LexerError>)
        requires
            expected@ is Equal || expected@ is RightParen,
        ensures
            final(self).tokens@ == old(self).tokens@,
            match expect(token_views(old(self).tokens@), old(self).current as int, expected@) {
                None => failure is None && final(self).current == old(self).current + 1,
                Some(error) => failure matches Some(found) && found@ == error,
            },
    {
        proof {
            use_type_invariant(&*self);
        }
        match self.peek() {
            Some(token) => {
                let fits = match (&token.token_type, &expected) {
                    (TokenType::Equal, TokenType::Equal) => true,
                    (TokenType::RightParen, TokenType::RightParen) => true,
                    _ => false,
                };
                if fits {
                    self.advance();
                    None
                } else {
                    Some(
                        LexerError::WrongToken {
                            found: token.token_type.clone(),
                            expected,
                            column: token.column,
                        },
                    )
                }
            },
            None => Some(
                LexerError::ExpectedTokenFoundEof { expected, column: self.end_column() },
            ),
        }
    }

    fn expression(&mut self) -> (result: LexerResult<Expression>)
        ensures
            final(self).tokens@ == old(self).tokens@,
            parsed_as(
                result,
                final(self).current as int,
                parse_expression(token_views(old(self).tokens@), old(self).current as int),
            ),
        decreases old(self).tokens.len() - old(self).current, 5nat,
    {
        proof {
            use_type_invariant(&*self);
        }
        let ghost views = token_views(self.tokens@);
        let ghost start = self.current as int;
        proof {
            lemma_parse_advances(views, start);
        }
        let mut expression = match self.factor() {
            Ok(first) => first,
            Err(error) => {
                return Err(error);
            },
        };
        loop
            invariant
                self.tokens@ == old(self).tokens@,
                views == token_views(self.tokens@),
                start == old(self).current,
                start < self.current <= self.tokens.len(),
                expression@.call_free(),
                expression_rest(views, expression@, self.current as int) == parse_expression(
                    views,
                    start,
                ),
            decreases self.tokens.len() - self.current,
        {
            let operator = match self.peek() {
                Some(token) => match &token.token_type {
                    TokenType::Plus | TokenType::Minus => token.clone(),
                    _ => {
                        return Ok(expression);
                    },
                },
                None => {
                    return Ok(expression);
                },
            };
            self.advance();
            proof {
                lemma_parse_advances(views, self.current as int);
            }
            let right = match self.factor() {
                Ok(right) => right,
                Err(error) => {
                    return Err(error);
                },
            };
            expression = Expression {
                expression_type: ExpressionType::Binary {
                    left: Box::new(expression),
                    right: Box::new(right),
                    operator: operator.clone(),
                },
                token: operator,
            };
        }
    }

    fn factor(&mut self) -> (result: LexerResult<Expression>)
        ensures
            final(self).tokens@ == old(self).tokens@,
            parsed_as(
                result,
                final(self).current as int,
                parse_factor(token_views(old(self).tokens@), old(self).current as int),
            ),
        decreases old(self).tokens.len() - old(self).current, 4nat,
    {
        proof {
            use_type_invariant(&*self);
        }
        let ghost views = token_views(self.tokens@);
        let ghost start = self.current as int;
        proof {
            lemma_parse_advances(views, start);
        }
        let mut factor = match self.monomial() {
            Ok(first) => first,
            Err(error) => {
                return Err(error);
            },
        };
        loop
            invariant
                self.tokens@ == old(self).tokens@,
                views == token_views(self.tokens@),
                start == old(self).current,
                start < self.current <= self.tokens.len(),
                factor@.call_free(),
                factor_rest(views, factor@, self.current as int) == parse_factor(views, start),
            decreases self.tokens.len() - self.current,
        {
            let operator = match self.peek() {
                Some(token) => match &token.token_type {
                    TokenType::Star | TokenType::Slash => token.clone(),
                    _ => {
                        return Ok(factor);
                    },
                },
                None => {
                    return Ok(factor);
                },
            };
            self.advance();
            proof {
                lemma_parse_advances(views, self.current as int);
            }
            let monomial = match self.monomial() {
                Ok(monomial) => monomial,
                Err(error) => {
                    return Err(error);
                },
            };
            factor = Expression {
                expression_type: ExpressionType::Binary {
                    operator: operator.clone(),
                    left: Box::new(factor),
                    right: Box::new(monomial),
                },
                token: operator,
            };
        }
    }

    fn monomial(&mut self) -> (result: LexerResult<Expression>)
        ensures
            final(self).tokens@ == old(self).tokens@,
            parsed_as(
                result,
                final(self).current as int,
                parse_monomial(token_views(old(self).tokens@), old(self).current as int),
            ),
        decreases old(self).tokens.len() - old(self).current, 2nat,
    {
        proof {
            use_type_invariant(&*self);
        }
        let ghost views = token_views(self.tokens@);
        let ghost start = self.current as int;
        let negative = match self.peek() {
            Some(token) => match &token.token_type {
                TokenType::Minus => true,
                _ => false,
            },
            None => false,
        };
        if negative {
            self.advance();
            proof {
                lemma_parse_advances(views, start + 1);
            }
            let right = match self.monomial() {
                Ok(right) => right,
                Err(error) => {
                    return Err(error);
                },
            };
            let token = match self.previous() {
                Some(token) => token.clone(),
                None => unreached(),
            };
            return Ok(
                Expression { expression_type: ExpressionType::Negation(Box::new(right)), token },
            );
        }
        proof {
            lemma_parse_advances(views, start);
        }
        let primary = match self.primary() {
            Ok(primary) => primary,
            Err(error) => {
                return Err(error);
            },
        };
        let next = match self.peek() {
            Some(next) => next.clone(),
            None => {
                return Ok(primary);
            },
        };
        proof {
            lemma_parse_advances(views, self.current as int);
            lemma_parse_advances(views, self.current + 1);
        }
        match &next.token_type {
            TokenType::Identifier(_) | TokenType::LeftParen => {
                let right = match self.monomial() {
                    Ok(right) => right,
                    Err(error) => {
                        return Err(error);
                    },
                };
                Ok(
                    Expression {
                        expression_type: ExpressionType::Binary {
                            left: Box::new(primary),
                            right: Box::new(right),
                            operator: Token::new(TokenType::Star, "*".to_owned(), next.column),
                        },
                        token: next,
                    },
                )
            },
            TokenType::Hat => {
                self.advance();
                let exponent = match self.parse_exponent() {
                    Ok(exponent) => exponent,
                    Err(error) => {
                        return Err(error);
                    },
                };
                Ok(
                    Expression {
                        expression_type: ExpressionType::Binary {
                            left: Box::new(primary),
                            operator: next.clone(),
                            right: Box::new(exponent),
                        },
                        token: next,
                    },
                )
            },
            _ => Ok(primary),
        }
    }

    fn primary(&mut self) -> (result: LexerResult<Expression>)
        ensures
            final(self).tokens@ == old(self).tokens@,
            parsed_as(
                result,
                final(self).current as int,
                parse_primary(token_views(old(self).tokens@), old(self).current as int),
            ),
        decreases old(self).tokens.len() - old(self).current, 0nat,
    {
        proof {
            use_type_invariant(&*self);
        }
        let token = match self.peek() {
            Some(token) => token.clone(),
            None => {
                return Err(LexerError::UnexpectedEof { column: self.end_column() });
            },
        };
        match &token.token_type {
            TokenType::Number(value) => {
                let value = value.clone();
                self.advance();
                Ok(Expression { expression_type: ExpressionType::Number(value), token })
            },
            TokenType::LeftParen => {
                self.advance();
                self.parse_group(token)
            },
            TokenType::Identifier(name) => {
                let name = name.clone();
                self.advance();
                Ok(Expression { expression_type: ExpressionType::Variable(name), token })
            },
            other => Err(LexerError::ExpectedPrimary { found: other.clone(), column: token.column }),
        }
    }

    fn parse_exponent(&mut self) -> (result: LexerResult<Expression>)
        ensures
            final(self).tokens@ == old(self).tokens@,
            parsed_as(
                result,
                final(self).current as int,
                parse_exponent(token_views(old(self).tokens@), old(self).current as int),
            ),
        decreases old(self).tokens.len() - old(self).current, 1nat,
    {
        proof {
            use_type_invariant(&*self);
        }
        let next = match self.peek() {
            Some(next) => next.clone(),
            None => {
                return Err(LexerError::UnexpectedEof { column: self.end_column() });
            },
        };
        match self.primary() {
            Ok(exponent) => Ok(exponent),
            Err(_) => Err(
                LexerError::InvalidExponent { found: next.token_type, column: next.column },
            ),
        }
    }

    fn parse_group(&mut self, token: Token) -> (result: LexerResult<Expression>)
        ensures
            final(self).tokens@ == old(self).tokens@,
            parsed_as(
                result,
                final(self).current as int,
                parse_group(token_views(old(self).tokens@), old(self).current as int, token@),
            ),
        decreases old(self).tokens.len() - old(self).current, 6nat,
    {
        let group = match self.expression() {
            Ok(group) => group,
            Err(error) => {
                return Err(error);
            },
        };
        match self.expect_token(TokenType::RightParen) {
            Some(error) => Err(error),
            None => Ok(
                Expression { expression_type: ExpressionType::Grouping(Box::new(group)), token },
            ),
        }
    }

    fn peek(&self) -> (token: Option<&Token>)
        ensures
            self.current < self.tokens.len() ==> token == Some(&self.tokens@[self.current as int]),
            self.current >= self.tokens.len() ==> token is None,
    {
        if self.current < self.tokens.len() {
            Some(&self.tokens[self.current])
        } else {
            None
        }
    }

    fn end_column(&self) -> (column: usize)
        ensures
            column == end_column(token_views(self.tokens@)),
    {
        if self.tokens.len() == 0 {
            1
        } else {
            let last = &self.tokens[self.tokens.len() - 1];
            let length = last.lexeme.as_str().unicode_len();
            if length <= usize::MAX - last.column {
                last.column + length
            } else {
                usize::MAX
            }
        }
    }

    fn previous(&self) -> (token: Option<&Token>)
        ensures
            0 < self.current <= self.tokens.len() ==> token == Some(
                &self.tokens@[self.current - 1],
            ),
            self.current == 0 ==> token is None,
    {
        proof {
            use_type_invariant(self);
        }
        if self.current == 0 {
            None
        } else {
            Some(&self.tokens[self.current - 1])
        }
    }

    fn advance(&mut self)
        ensures
            final(self).tokens@ == old(self).tokens@,
            old(self).current < old(self).tokens.len() ==> final(self).current == old(self).current
                + 1,
            old(self).current >= old(self).tokens.len() ==> final(self).current == old(
                self,
            ).current,
    {
        if self.current < self.tokens.len() {
            self.current = self.current + 1;
        }
    }
}

} // verus!
