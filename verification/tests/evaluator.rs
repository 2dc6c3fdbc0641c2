use syntax::evaluator::{Evaluator, EvaluatorError, EvaluatorErrorType, Value};
use syntax::expression::{Expression, ExpressionType};
use syntax::lexer::{Equation, Lexer};
use syntax::tokenizer::{Token, TokenType, Tokenizer};
use syntax::Number;

fn fold(number: &Number) -> f64 {
    match number {
        Number::Integer(value) => *value as f64,
        Number::TenToMinus(count) => {
            if *count > i32::MAX as usize {
                0.0
            } else {
                10f64.powi(-(*count as i32))
            }
        }
        Number::Negated(inner) => -fold(inner),
        Number::Plus(left, right) => fold(left) + fold(right),
        Number::Minus(left, right) => fold(left) - fold(right),
        Number::Times(left, right) => fold(left) * fold(right),
        Number::Over(left, right) => fold(left) / fold(right),
        Number::RaisedTo(left, right) => fold(left).powf(fold(right)),
    }
}

#[derive(Debug, PartialEq)]
enum Plain {
    Sum(Vec<Plain>),
    Monomial {
        coefficient: f64,
        variable: Option<String>,
    },
}

fn new_constant(coefficient: f64) -> Plain {
    Plain::Monomial {
        coefficient,
        variable: None,
    }
}

fn new_monomial(coefficient: f64, variable: String) -> Plain {
    Plain::Monomial {
        coefficient,
        variable: Some(variable),
    }
}

fn plain(value: Value) -> Plain {
    match value {
        Value::Sum(values) => Plain::Sum(values.into_iter().map(plain).collect()),
        Value::Monomial {
            coefficient,
            variable,
        } => Plain::Monomial {
            coefficient: fold(&coefficient),
            variable,
        },
    }
}

fn text_into_tokens(text: &str) -> Vec<Token> {
    let mut tokens = Vec::new();
    let mut tokenizer = Tokenizer::new(text.as_bytes().to_vec());

    while let Some(token) = tokenizer.next() {
        match token {
            Ok(token) => tokens.push(token),
            Err(e) => panic!("the expression could not be read: {:?}", e),
        }
    }

    tokens
}

fn equation_from_text(text: &str) -> Equation {
    let tokens = text_into_tokens(text);
    let mut lexer = Lexer::new(tokens);

    lexer.equation().unwrap()
}

fn left_value(text: &str) -> Plain {
    let equation = equation_from_text(text);
    plain(Evaluator::new().evaluate_expression(&equation.left).unwrap())
}

fn left_error(text: &str) -> EvaluatorError {
    let equation = equation_from_text(text);
    Evaluator::new()
        .evaluate_expression(&equation.left)
        .unwrap_err()
}

fn name(text: &str, column: usize) -> Token {
    Token::new(
        TokenType::Identifier(String::from(text)),
        String::from(text),
        column,
    )
}

#[test]
fn evaluator_test_negation() {
    let equation = equation_from_text("-x = -3");
    let evaluator = Evaluator {};

    let left = evaluator.evaluate_expression(&equation.left).unwrap();
    assert_eq!(plain(left), new_monomial(-1.0, String::from("x")));

    let right = evaluator.evaluate_expression(&equation.right).unwrap();
    assert_eq!(plain(right), new_constant(-3.0));
}

#[test]
fn test_sum() {
    let tokens = text_into_tokens("x + 2 = y - 3");
    let mut lexer = Lexer::new(tokens);

    let equation = lexer.equation().unwrap();

    let evaluator = Evaluator {};

    let left_result = evaluator.evaluate_expression(&equation.left).unwrap();
    let right_result = evaluator.evaluate_expression(&equation.right).unwrap();

    assert_eq!(
        plain(left_result),
        Plain::Sum(vec![
            Plain::Monomial {
                variable: Some(String::from("x")),
                coefficient: 1.0,
            },
            Plain::Monomial {
                variable: None,
                coefficient: 2.0,
            }
        ])
    );

    assert_eq!(
        plain(right_result),
        Plain::Sum(vec![
            new_monomial(1.0, String::from("y")),
            new_constant(-3.0)
        ])
    );

    let tokens = text_into_tokens("-2 - x = 3 + y");
    let mut lexer = Lexer::new(tokens);

    let equation = lexer.equation().unwrap();

    let evaluator = Evaluator {};

    let left_result = evaluator.evaluate_expression(&equation.left).unwrap();
    let right_result = evaluator.evaluate_expression(&equation.right).unwrap();

    assert_eq!(
        plain(left_result),
        Plain::Sum(vec![
            Plain::Monomial {
                variable: None,
                coefficient: -2.0,
            },
            Plain::Monomial {
                variable: Some(String::from("x")),
                coefficient: -1.0,
            },
        ])
    );

    assert_eq!(
        plain(right_result),
        Plain::Sum(vec![
            new_constant(3.0),
            new_monomial(1.0, String::from("y")),
        ])
    )
}

#[test]
fn evaluator_test_substraction() {
    let equation = equation_from_text("5 + y -x = 2y - 10");
    let evaluator = Evaluator {};

    let left = evaluator.evaluate_expression(&equation.left).unwrap();
    let right = evaluator.evaluate_expression(&equation.right).unwrap();

    assert_eq!(
        plain(left),
        Plain::Sum(vec![
            new_constant(5.0),
            new_monomial(1.0, String::from("y")),
            new_monomial(-1.0, String::from("x")),
        ])
    );

    assert_eq!(
        plain(right),
        Plain::Sum(vec![
            new_monomial(2.0, String::from("y")),
            new_constant(-10.0),
        ])
    )
}

#[test]
fn evaluator_test_implicit_multiplication() {
    let equation = equation_from_text("3x = -6y");
    let evaluator = Evaluator {};

    let left = evaluator.evaluate_expression(&equation.left).unwrap();
    let right = evaluator.evaluate_expression(&equation.right).unwrap();

    assert_eq!(plain(left), new_monomial(3.0, String::from("x")));
    assert_eq!(plain(right), new_monomial(-6.0, String::from("y")));
}

#[test]
fn test_explicit_multiplication() {
    let equation = equation_from_text("3*x = -6*y");
    let evaluator = Evaluator {};

    let left = evaluator.evaluate_expression(&equation.left).unwrap();
    let right = evaluator.evaluate_expression(&equation.right).unwrap();

    assert_eq!(plain(left), new_monomial(3.0, String::from("x")));
    assert_eq!(plain(right), new_monomial(-6.0, String::from("y")));

    let equation = equation_from_text("3*x*2 = -6*3*2y");
    let evaluator = Evaluator {};

    let left = evaluator.evaluate_expression(&equation.left).unwrap();
    let right = evaluator.evaluate_expression(&equation.right).unwrap();

    assert_eq!(plain(left), new_monomial(3.0 * 2.0, String::from("x")));
    assert_eq!(
        plain(right),
        new_monomial(-6.0 * 3.0 * 2.0, String::from("y"))
    );
}

#[test]
#[should_panic]
fn test_invalid_multiplication() {
    let equation = equation_from_text("3*x*y = -6*y*z");
    let evaluator = Evaluator {};

    evaluator.evaluate_expression(&equation.left).unwrap();
    evaluator.evaluate_expression(&equation.right).unwrap();
}

#[test]
fn test_single_times_group_multiplication() {
    let equation = equation_from_text("3*(x+1) = -6x*(3 + 2)");
    let evaluator = Evaluator {};

    let left = evaluator.evaluate_expression(&equation.left).unwrap();
    let right = evaluator.evaluate_expression(&equation.right).unwrap();

    assert_eq!(
        plain(left),
        Plain::Sum(vec![
            new_monomial(3.0, String::from("x")),
            new_constant(3.0)
        ])
    );

    assert_eq!(plain(right), new_monomial(-30.0, String::from("x")));

    let equation = equation_from_text("3*(x+1+y) = 3 + 2x - y");
    let evaluator = Evaluator {};

    let left = evaluator.evaluate_expression(&equation.left).unwrap();
    let right = evaluator.evaluate_expression(&equation.right).unwrap();

    assert_eq!(
        plain(left),
        Plain::Sum(vec![
            new_monomial(3.0, String::from("x")),
            new_constant(3.0),
            new_monomial(3.0, String::from("y")),
        ])
    );

    assert_eq!(
        plain(right),
        Plain::Sum(vec![
            new_constant(3.0),
            new_monomial(2.0, String::from("x")),
            new_monomial(-1.0, String::from("y"))
        ])
    )
}

#[test]
#[should_panic]
fn test_invalid_group_multiplication_left() {
    let equation = equation_from_text("(3 + x)*(1 - y) = (x - 2)*(-y+3)");
    let evaluator = Evaluator {};

    evaluator.evaluate_expression(&equation.left).unwrap();
}

#[test]
#[should_panic]
fn test_invalid_group_multiplication_right() {
    let equation = equation_from_text("2 = (x - 2)*(-x+3)");
    let evaluator = Evaluator {};

    evaluator.evaluate_expression(&equation.right).unwrap();
}

#[test]
fn evaluate_number_division() {
    let equation = equation_from_text("1 / 2 = 6 / 3");
    let evaluator = Evaluator {};

    let left = evaluator.evaluate_expression(&equation.left).unwrap();
    let right = evaluator.evaluate_expression(&equation.right).unwrap();

    assert_eq!(plain(left), new_constant(0.5));
    assert_eq!(plain(right), new_constant(2.0));

    let equation = equation_from_text("0.5 / 0.5 = 4 / 0.25");
    let evaluator = Evaluator {};

    let left = evaluator.evaluate_expression(&equation.left).unwrap();
    let right = evaluator.evaluate_expression(&equation.right).unwrap();

    assert_eq!(plain(left), new_constant(1.0));
    assert_eq!(plain(right), new_constant(16.0));
}

#[test]
fn test_simple_variable_to_constant_division() {
    let equation = equation_from_text("(1/4) * x = y/2");
    let evaluator = Evaluator {};

    let left = evaluator.evaluate_expression(&equation.left).unwrap();
    let right = evaluator.evaluate_expression(&equation.right).unwrap();

    assert_eq!(plain(left), new_monomial(0.25, String::from("x")));
    assert_eq!(plain(right), new_monomial(0.5, String::from("y")));
}

#[test]
#[should_panic]
fn panics_on_division_with_variable_left() {
    let equation = equation_from_text("y/x = 2");
    let evaluator = Evaluator {};

    evaluator.evaluate_expression(&equation.left).unwrap();
}

#[test]
#[should_panic]
fn panic_on_division_variable_right() {
    let equation = equation_from_text("1.2x = 6 / y");
    let evaluator = Evaluator {};

    evaluator.evaluate_expression(&equation.right).unwrap();
}

#[test]
fn evaluator_test_group_implicit_multiplication() {
    let equation = equation_from_text("x(1 + 18) = (3 + 6)(2 + 9x)");
    let evaluator = Evaluator();

    let left = evaluator.evaluate_expression(&equation.left).unwrap();
    let right = evaluator.evaluate_expression(&equation.right).unwrap();

    assert_eq!(plain(left), new_monomial(19.0, String::from("x")));
    assert_eq!(
        plain(right),
        Plain::Sum(vec![
            new_constant(18.0),
            new_monomial(81.0, String::from("x"))
        ])
    );
}

#[test]
fn test_exponentiation() {
    let equation = equation_from_text("9^2 = 9^(1/2)");
    let evaluator = Evaluator();

    let left = evaluator.evaluate_expression(&equation.left).unwrap();
    let right = evaluator.evaluate_expression(&equation.right).unwrap();

    assert_eq!(plain(left), new_constant(81.0));
    assert_eq!(plain(right), new_constant(3.0));
}

#[test]
fn test_allows_exponent_to_sum_of_constants() {
    let equation = equation_from_text("2^(1 + 3 + 1) = 3^(2 + 1)");
    let evaluator = Evaluator();

    let left = evaluator.evaluate_expression(&equation.left).unwrap();
    let right = evaluator.evaluate_expression(&equation.right).unwrap();

    assert_eq!(plain(left), new_constant(32.0));
    assert_eq!(plain(right), new_constant(27.0));
}

#[test]
#[should_panic]
fn test_panics_on_variable_to_exponent() {
    let equation = equation_from_text("x^2 = y");
    let evaluator = Evaluator();

    evaluator.evaluate_expression(&equation.left).unwrap();
}

#[test]
fn variable_denominator_is_an_error_with_both_tokens() {
    let error = left_error("y/x = 2");
    assert_eq!(
        error,
        EvaluatorError {
            error_type: EvaluatorErrorType::VariableDivision {
                numerator: name("y", 1),
                denominator: name("x", 3),
            },
            token: name("y", 1),
        }
    );
    let error = left_error("6 / y = 1.2x");
    assert!(matches!(
        error.error_type,
        EvaluatorErrorType::VariableDivision { .. }
    ));
    assert_eq!(error.token.column, 1);
}

#[test]
fn variable_times_variable_is_an_error_with_both_tokens() {
    let error = left_error("3*x*y = -6*y*z");
    assert_eq!(
        error.error_type,
        EvaluatorErrorType::VariableMultiplication {
            left: Token::new(TokenType::Star, String::from("*"), 2),
            right: name("y", 5),
        }
    );
    assert_eq!(error.token, Token::new(TokenType::Star, String::from("*"), 2));
    let error = left_error("x*x = 1");
    assert!(matches!(
        error.error_type,
        EvaluatorErrorType::VariableMultiplication { .. }
    ));
    let error = left_error("(3 + x)*(1 - y) = 0");
    assert!(matches!(
        error.error_type,
        EvaluatorErrorType::VariableMultiplication { .. }
    ));
    assert_eq!(error.token, Token::new(TokenType::LeftParen, String::from("("), 1));
}

#[test]
fn power_takes_constants_only() {
    let error = left_error("x^2 = y");
    assert_eq!(error.error_type, EvaluatorErrorType::NonConstantBase);
    assert_eq!(error.token, name("x", 1));

    let error = left_error("2^x = y");
    assert_eq!(error.error_type, EvaluatorErrorType::NonConstantExponent);
    assert_eq!(error.token, name("x", 3));

    let error = left_error("x^y = 1");
    assert_eq!(error.error_type, EvaluatorErrorType::NonConstantBase);

    let error = left_error("2^(x + 1) = 1");
    assert_eq!(error.error_type, EvaluatorErrorType::NonConstantExponent);
    assert_eq!(error.token, Token::new(TokenType::LeftParen, String::from("("), 3));

    let error = left_error("(x + 1)^2 = 1");
    assert_eq!(error.error_type, EvaluatorErrorType::NonConstantBase);
    assert_eq!(error.token, Token::new(TokenType::LeftParen, String::from("("), 1));

    let error = left_error("(x + 1)^y = 1");
    assert_eq!(error.error_type, EvaluatorErrorType::NonConstantBase);
    assert_eq!(error.token, Token::new(TokenType::LeftParen, String::from("("), 1));

    let error = left_error("(2 + 1)^(y + 1) = 1");
    assert_eq!(error.error_type, EvaluatorErrorType::NonConstantExponent);
    assert_eq!(error.token, Token::new(TokenType::LeftParen, String::from("("), 9));
}

#[test]
fn power_of_constants_is_kept_as_a_power() {
    let equation = equation_from_text("2^0.5 = 0");
    let value = Evaluator::new()
        .evaluate_expression(&equation.left)
        .unwrap();
    match value {
        Value::Monomial {
            coefficient: Number::RaisedTo(base, exponent),
            variable: None,
        } => {
            assert_eq!(*base, Number::Integer(2));
            assert_eq!(fold(&exponent), 0.5);
        }
        other => panic!("not a power: {:?}", other),
    }
    assert!(matches!(left_value("(0 - 8)^0.5 = 0"), Plain::Monomial { coefficient, variable: None } if coefficient.is_nan()));
}

#[test]
fn invalid_binary_operator_points_at_the_operator() {
    let operator = Token::new(TokenType::Equal, String::from("="), 3);
    let x = Expression {
        expression_type: ExpressionType::Variable(String::from("x")),
        token: name("x", 1),
    };
    let y = Expression {
        expression_type: ExpressionType::Variable(String::from("y")),
        token: name("y", 5),
    };
    let expression = Expression {
        expression_type: ExpressionType::Binary {
            left: Box::new(x),
            operator: operator.clone(),
            right: Box::new(y),
        },
        token: operator.clone(),
    };
    assert_eq!(
        Evaluator::new().evaluate_expression(&expression),
        Err(EvaluatorError {
            error_type: EvaluatorErrorType::InvalidBinaryOperator,
            token: operator,
        })
    );
}

#[test]
fn left_operand_fails_before_the_right_one() {
    let error = left_error("x*y + 2^z = 0");
    assert!(matches!(
        error.error_type,
        EvaluatorErrorType::VariableMultiplication { .. }
    ));
    let error = left_error("2^z + x*y = 0");
    assert_eq!(error.error_type, EvaluatorErrorType::NonConstantExponent);
}

#[test]
fn like_monomials_add_and_unlike_ones_are_listed() {
    assert_eq!(left_value("2x + 3x = 0"), new_monomial(5.0, String::from("x")));
    assert_eq!(left_value("2 + 3 = 0"), new_constant(5.0));
    assert_eq!(left_value("2x - 3x = 0"), new_monomial(-1.0, String::from("x")));
    assert_eq!(
        left_value("2x + 3y = 0"),
        Plain::Sum(vec![
            new_monomial(2.0, String::from("x")),
            new_monomial(3.0, String::from("y"))
        ])
    );
    assert_eq!(
        left_value("x + 1 + x = 0"),
        Plain::Sum(vec![
            new_monomial(1.0, String::from("x")),
            new_constant(1.0),
            new_monomial(1.0, String::from("x"))
        ])
    );
}

#[test]
fn a_monomial_joins_a_sum_at_its_end() {
    assert_eq!(
        left_value("7 + (x + 1) = 0"),
        Plain::Sum(vec![
            new_monomial(1.0, String::from("x")),
            new_constant(1.0),
            new_constant(7.0)
        ])
    );
    assert_eq!(
        left_value("7 - (x + 1) = 0"),
        Plain::Sum(vec![
            new_monomial(-1.0, String::from("x")),
            new_constant(-1.0),
            new_constant(7.0)
        ])
    );
}

#[test]
fn subtracting_a_sum_negates_each_element() {
    assert_eq!(
        left_value("(x + 1) - (y + 2) = 0"),
        Plain::Sum(vec![
            new_monomial(1.0, String::from("x")),
            new_constant(1.0),
            new_monomial(-1.0, String::from("y")),
            new_constant(-2.0)
        ])
    );
    assert_eq!(
        left_value("(x + 1) + (y + 2) = 0"),
        Plain::Sum(vec![
            new_monomial(1.0, String::from("x")),
            new_constant(1.0),
            new_monomial(1.0, String::from("y")),
            new_constant(2.0)
        ])
    );
}

#[test]
fn negation_reaches_every_monomial_of_a_sum() {
    assert_eq!(
        left_value("-(x + 2y - 5) = 0"),
        Plain::Sum(vec![
            new_monomial(-1.0, String::from("x")),
            new_monomial(-2.0, String::from("y")),
            new_constant(5.0)
        ])
    );
    let nested = Value::Sum(vec![
        Value::new_constant(Number::Integer(1)),
        Value::Sum(vec![Value::new_monomial(
            Number::Integer(2),
            String::from("x"),
        )]),
    ]);
    assert_eq!(
        plain(nested.negate()),
        Plain::Sum(vec![
            new_constant(-1.0),
            Plain::Sum(vec![new_monomial(-2.0, String::from("x"))])
        ])
    );
}

#[test]
fn products_of_sums_are_listed_row_by_row() {
    assert_eq!(
        left_value("(x + 1)(2 + 3) = 0"),
        Plain::Sum(vec![
            new_monomial(5.0, String::from("x")),
            new_constant(5.0)
        ])
    );
    assert_eq!(
        left_value("(x + 1)*(2 + (3 + 4)) = 0"),
        Plain::Sum(vec![
            new_monomial(9.0, String::from("x")),
            new_constant(9.0)
        ])
    );
    assert_eq!(
        left_value("(x + y + 1)*3 = 0"),
        Plain::Sum(vec![
            new_monomial(3.0, String::from("x")),
            new_monomial(3.0, String::from("y")),
            new_constant(3.0)
        ])
    );
    assert!(matches!(
        left_error("(1 + x)*(2 + y) = 0").error_type,
        EvaluatorErrorType::VariableMultiplication { .. }
    ));
}

#[test]
fn like_terms_are_not_collected_in_products() {
    assert_eq!(
        left_value("2*(x + 1 + x) = 0"),
        Plain::Sum(vec![
            new_monomial(2.0, String::from("x")),
            new_constant(2.0),
            new_monomial(2.0, String::from("x"))
        ])
    );
}

#[test]
fn division_is_distributed_over_a_sum_in_the_numerator() {
    assert_eq!(
        left_value("(24x + 12y + 6)/3 = 0"),
        Plain::Sum(vec![
            new_monomial(8.0, String::from("x")),
            new_monomial(4.0, String::from("y")),
            new_constant(2.0)
        ])
    );
}

#[test]
fn division_is_distributed_over_a_sum_in_the_denominator() {
    assert_eq!(
        left_value("6/(x + 2) = 0"),
        Plain::Sum(vec![
            new_monomial(6.0, String::from("x")),
            new_constant(3.0)
        ])
    );
    assert_eq!(
        left_value("(8 + 4)/(y + 2) = 0"),
        Plain::Sum(vec![
            new_monomial(12.0, String::from("y")),
            new_constant(6.0)
        ])
    );
    let error = left_error("(x + 1)/(y + 1) = 0");
    assert!(matches!(
        error.error_type,
        EvaluatorErrorType::VariableDivision { .. }
    ));
    assert_eq!(error.token, Token::new(TokenType::LeftParen, String::from("("), 1));
}

#[test]
fn division_by_zero_is_no_error() {
    assert_eq!(left_value("1/0 = 0"), new_constant(f64::INFINITY));
    assert_eq!(
        left_value("x/0 = 0"),
        new_monomial(f64::INFINITY, String::from("x"))
    );
}

#[test]
fn value_constructors_build_monomials() {
    assert_eq!(
        Value::new_constant(Number::Integer(4)),
        Value::Monomial {
            coefficient: Number::Integer(4),
            variable: None
        }
    );
    assert_eq!(
        Value::new_monomial(Number::Integer(4), String::from("k")),
        Value::Monomial {
            coefficient: Number::Integer(4),
            variable: Some(String::from("k"))
        }
    );
    assert_eq!(
        Value::new_constant(Number::Integer(4)).negate(),
        Value::Monomial {
            coefficient: Number::Negated(Box::new(Number::Integer(4))),
            variable: None
        }
    );
}

#[test]
fn invalid_operator_message_shows_the_token() {
    let operator = Token::new(TokenType::Equal, String::from("="), 3);
    let error = EvaluatorError {
        error_type: EvaluatorErrorType::InvalidBinaryOperator,
        token: operator,
    };
    assert_eq!(
        error.message(),
        "Token: Token { token_type: Equal, lexeme: \"=\", column: 3 } is not a valid binary operator. Column 3"
    );
    assert_eq!(
        name("x", 1005).describe(),
        "Token { token_type: Identifier(\"x\"), lexeme: \"x\", column: 1005 }"
    );
}

fn is_flat(value: &Value) -> bool {
    match value {
        Value::Monomial { .. } => true,
        Value::Sum(values) => values
            .iter()
            .all(|value| matches!(value, Value::Monomial { .. })),
    }
}

#[test]
fn values_of_expressions_nest_no_sums() {
    let texts = [
        "x + (y + (z + 1)) = 0",
        "2*(x + (y - 3))*4 = 0",
        "-(x - (y - (1 - z)))/2 = 0",
        "(x + 1) - (y + 2) + (z - 3) = 0",
        "3(2(x + 1) + 4(y - 1)) = 0",
    ];
    for text in texts.iter() {
        let equation = equation_from_text(text);
        let value = Evaluator::new()
            .evaluate_expression(&equation.left)
            .unwrap();
        assert!(is_flat(&value), "{}", text);
    }
}
