use std::collections::HashMap;
use syntax::evaluator::{EvaluatorErrorType, Value};
use syntax::lexer::LexerError;
use syntax::tokenizer::{TokenType, TokenizerError};
use syntax::{CanonicalEquation, Number, Simplifier, SimplifierError};

fn fold(number: &Number) -> f64 {
    match number {
        Number::Integer(value) => *value as f64,
        Number::TenToMinus(count) => {
            if *count > i32::MAX as usize {
                0.0
            } else {
                10f64.powi(-(*count as i32))
            }
        }
        Number::Negated(inner) => -fold(inner),
        Number::Plus(left, right) => fold(left) + fold(right),
        Number::Minus(left, right) => fold(left) - fold(right),
        Number::Times(left, right) => fold(left) * fold(right),
        Number::Over(left, right) => fold(left) / fold(right),
        Number::RaisedTo(left, right) => fold(left).powf(fold(right)),
    }
}

fn terms_of(equation: &CanonicalEquation) -> HashMap<String, f64> {
    let mut terms = HashMap::new();
    for (name, coefficient) in &equation.terms {
        let earlier = terms.insert(name.clone(), fold(coefficient));
        assert!(earlier.is_none(), "{} has two terms", name);
    }
    terms
}

fn check(expr: &str, terms: &[(&str, f64)], constant: f64) {
    let result = Simplifier().simplify_equation(expr).unwrap();
    let expected: HashMap<String, f64> = terms
        .iter()
        .map(|(name, coefficient)| (String::from(*name), *coefficient))
        .collect();
    assert_eq!(terms_of(&result), expected, "terms of {}", expr);
    assert_eq!(fold(&result.constant), constant, "constant of {}", expr);
}

#[test]
pub fn test_sums() {
    let expr = "2x + 3x - 2 = x + y + 2";
    let simplifier = Simplifier();

    let result = simplifier.simplify_equation(expr).unwrap();

    assert_eq!(
        terms_of(&result),
        HashMap::from([(String::from("x"), 4.0f64), (String::from("y"), -1.0)])
    );
    assert_eq!(fold(&result.constant), 4.0)
}

#[test]
pub fn simplifier_test_substraction() {
    let expr = "-2x -6x -3y = -5 -x -y -10";
    let simplifier = Simplifier();

    let result = simplifier.simplify_equation(expr).unwrap();

    assert_eq!(
        terms_of(&result),
        HashMap::from([(String::from("x"), -7.0f64), (String::from("y"), -2.0)])
    );

    assert_eq!(fold(&result.constant), -15.0)
}

#[test]
pub fn test_multiplication() {
    let expr = "3*(x + 2y -5) = -4*(-8y + 10x + 2)";

    let simplifier = Simplifier();

    let result = simplifier.simplify_equation(expr).unwrap();

    assert_eq!(
        terms_of(&result),
        HashMap::from([(String::from("x"), 43.0f64), (String::from("y"), -26.0)])
    );

    assert_eq!(fold(&result.constant), 7.0);
}

#[test]
pub fn test_division() {
    let expr = "(24x + 12y + 6)/3 = 0";

    let simplifier = Simplifier();

    let result = simplifier.simplify_equation(expr).unwrap();

    assert_eq!(
        terms_of(&result),
        HashMap::from([(String::from("x"), 8.0f64), (String::from("y"), 4.0)])
    );

    assert_eq!(fold(&result.constant), -2.0);
}

#[test]
fn variable_equals_constant() {
    check("x = 5", &[("x", 1.0)], -5.0);
}

#[test]
fn spaced_multiplication_example() {
    check(
        "3*(x + 2y - 5) = -4*(-8y + 10x + 2)",
        &[("x", 43.0), ("y", -26.0)],
        7.0,
    );
}

#[test]
fn bare_constants_are_added_on_the_left_and_subtracted_on_the_right() {
    check("5 = 3", &[], 2.0);
    check("7 = x", &[("x", -1.0)], 7.0);
}

#[test]
fn constants_inside_sums_change_sides() {
    check("x + 2 = y", &[("x", 1.0), ("y", -1.0)], -2.0);
    check("y = x + 2", &[("x", -1.0), ("y", 1.0)], 2.0);
    check("x + 2 = 5", &[("x", 1.0)], -7.0);
    check("5 = x + 2", &[("x", -1.0)], 7.0);
}

#[test]
fn bare_monomials_get_the_sign_of_their_side() {
    check("3x = -6y", &[("x", 3.0), ("y", 6.0)], 0.0);
    check("3x = 6x", &[("x", -3.0)], 0.0);
}

#[test]
fn cancelled_terms_are_kept() {
    check("x + y = x + y", &[("x", 0.0), ("y", 0.0)], 0.0);
    check("2x = 2x", &[("x", 0.0)], 0.0);
}

#[test]
fn every_variable_has_one_term() {
    let result = Simplifier()
        .simplify_equation("x + y + x + z + y + x = z + x + w")
        .unwrap();
    let mut names: Vec<&str> = result.terms.iter().map(|(name, _)| name.as_str()).collect();
    assert_eq!(names.len(), 4);
    names.sort();
    names.dedup();
    assert_eq!(names, ["w", "x", "y", "z"]);
    check(
        "x + y + x + z + y + x = z + x + w",
        &[("x", 2.0), ("y", 2.0), ("z", 0.0), ("w", -1.0)],
        0.0,
    );
}

#[test]
fn first_term_starts_from_zero() {
    let result = Simplifier().simplify_equation("x = 5").unwrap();
    assert_eq!(result.terms.len(), 1);
    assert_eq!(result.terms[0].0, "x");
    assert_eq!(
        result.terms[0].1,
        Number::Plus(
            Box::new(Number::Integer(0)),
            Box::new(Number::Times(
                Box::new(Number::Integer(1)),
                Box::new(Number::Integer(1))
            ))
        )
    );
    assert_eq!(
        result.constant,
        Number::Plus(
            Box::new(Number::Integer(0)),
            Box::new(Number::Negated(Box::new(Number::Integer(5))))
        )
    );
}

#[test]
fn nested_sums_are_flattened() {
    let mut equation = CanonicalEquation::new();
    equation.add_term(String::from("x"), Number::Integer(2));
    equation.add_term(String::from("y"), Number::Integer(3));
    equation.add_term(String::from("x"), Number::Integer(4));
    assert_eq!(
        terms_of(&equation),
        HashMap::from([(String::from("x"), 6.0f64), (String::from("y"), 3.0)])
    );
    assert_eq!(fold(&equation.constant), 0.0);
    let _ = Value::new_constant(Number::Integer(0));
}

#[test]
fn non_finite_results_are_passed_through() {
    let result = Simplifier().simplify_equation("x/0 = 1/0").unwrap();
    let terms = terms_of(&result);
    assert_eq!(terms["x"], f64::INFINITY);
    assert_eq!(fold(&result.constant), f64::NEG_INFINITY);
    let result = Simplifier().simplify_equation("(0 - 1)^0.5 = 0").unwrap();
    assert!(fold(&result.constant).is_nan());
}

#[test]
fn scanner_errors_are_passed_on() {
    assert_eq!(
        Simplifier().simplify_equation("x = 5 # 2").unwrap_err(),
        SimplifierError::TokenizerError(TokenizerError::UnknownCharacter(b'#', 7))
    );
    assert_eq!(
        Simplifier().simplify_equation("x + 1\n = \u{e9}").unwrap_err(),
        SimplifierError::TokenizerError(TokenizerError::UnknownCharacter(0xc3, 4))
    );
}

#[test]
fn parser_errors_are_passed_on() {
    assert_eq!(
        Simplifier().simplify_equation("x + 1").unwrap_err(),
        SimplifierError::LexerError(LexerError::ExpectedTokenFoundEof {
            expected: TokenType::Equal,
            column: 6
        })
    );
    assert_eq!(
        Simplifier().simplify_equation("x = 1 2").unwrap_err(),
        SimplifierError::LexerError(LexerError::ExpectedEof {
            found: TokenType::Number(Number::Integer(2)),
            column: 7
        })
    );
}

#[test]
fn evaluator_errors_are_passed_on() {
    match Simplifier().simplify_equation("y/x = 2").unwrap_err() {
        SimplifierError::EvaluatorError(error) => {
            assert!(matches!(
                error.error_type,
                EvaluatorErrorType::VariableDivision { .. }
            ));
            assert_eq!(error.token.column, 1);
        }
        other => panic!("not an evaluator error: {:?}", other),
    }
    match Simplifier().simplify_equation("3*x*y = -6*y*z").unwrap_err() {
        SimplifierError::EvaluatorError(error) => assert!(matches!(
            error.error_type,
            EvaluatorErrorType::VariableMultiplication { .. }
        )),
        other => panic!("not an evaluator error: {:?}", other),
    }
    match Simplifier().simplify_equation("x^2 = y").unwrap_err() {
        SimplifierError::EvaluatorError(error) => {
            assert_eq!(error.error_type, EvaluatorErrorType::NonConstantBase)
        }
        other => panic!("not an evaluator error: {:?}", other),
    }
    match Simplifier().simplify_equation("1 = 2\n + x*\ny").unwrap_err() {
        SimplifierError::EvaluatorError(error) => {
            assert!(matches!(
                error.error_type,
                EvaluatorErrorType::VariableMultiplication { .. }
            ));
            assert_eq!(error.token.lexeme, "x");
            assert_eq!(error.token.column, 4);
        }
        other => panic!("not an evaluator error: {:?}", other),
    }
}

#[test]
fn left_side_fails_before_the_right_side() {
    match Simplifier().simplify_equation("x*y = 2^z").unwrap_err() {
        SimplifierError::EvaluatorError(error) => assert!(matches!(
            error.error_type,
            EvaluatorErrorType::VariableMultiplication { .. }
        )),
        other => panic!("not an evaluator error: {:?}", other),
    }
}

#[test]
fn messages_name_the_stage_and_the_column() {
    assert_eq!(
        Simplifier().simplify_equation("x = 5 # 2").unwrap_err().message(),
        "Syntax Error: Character 35 is not recognized by the tokenizer in column 7"
    );
    assert_eq!(
        Simplifier().simplify_equation("x + 1").unwrap_err().message(),
        "Lexer error: Expected token Equal, but the input ended unexpectedly. Column 6"
    );
    assert_eq!(
        Simplifier().simplify_equation("x = )").unwrap_err().message(),
        "Lexer error: Expected number, identifier or left parenthesis, but found RightParen instead. Column 5"
    );
    assert_eq!(
        Simplifier().simplify_equation("x y 3 = 1").unwrap_err().message(),
        "Lexer error: Expected token Equal, but found Number instead. Column 5"
    );
    assert_eq!(
        Simplifier().simplify_equation("x = 2^3 y").unwrap_err().message(),
        "Lexer error: Expected EOF, found Identifier(\"y\") instead. Column 9"
    );
    assert_eq!(
        Simplifier().simplify_equation("x = ").unwrap_err().message(),
        "Lexer error: Unexpected end of file. Column 4"
    );
    assert_eq!(
        Simplifier().simplify_equation("x^+ = 1").unwrap_err().message(),
        "Lexer error: Expected number, identifier or left parenthesis as exponent, but found Plus instead. Column 3"
    );
    assert_eq!(
        Simplifier().simplify_equation("1 =           y/x").unwrap_err().message(),
        "Evaluation Error: Cannot divide between a variable denominator. Column 15"
    );
    assert_eq!(
        Simplifier().simplify_equation("x*y = 1").unwrap_err().message(),
        "Evaluation Error: Cannot multiply a variable times another variable. Column 1"
    );
    assert_eq!(
        Simplifier().simplify_equation("ab^2 = 1").unwrap_err().message(),
        "Evaluation Error: The base of an exponentiation operation may only be a constant. Found Token { token_type: Identifier(\"ab\"), lexeme: \"ab\", column: 1 }, column 1"
    );
    assert_eq!(
        Simplifier().simplify_equation("2^(x + 1) = 1").unwrap_err().message(),
        "Evaluation Error: The exponent of an exponentiation operation may only be a constant. Found Token { token_type: LeftParen, lexeme: \"(\", column: 3 } in column 3"
    );
    assert_eq!(
        SimplifierError::from(TokenizerError::NoUtf8(120)).message(),
        "Syntax Error: Input string contains non-UTF8 sequences in column 120"
    );
    assert_eq!(
        LexerError::TokenizerError(TokenizerError::UnknownCharacter(255, 10)).message(),
        "Syntax Error: Character 255 is not recognized by the tokenizer in column 10"
    );
}

#[test]
fn conversions_wrap_the_error_of_each_stage() {
    assert_eq!(
        SimplifierError::from(TokenizerError::NoUtf8(3)),
        SimplifierError::TokenizerError(TokenizerError::NoUtf8(3))
    );
    assert_eq!(
        SimplifierError::from(LexerError::UnexpectedEof { column: 4 }),
        SimplifierError::LexerError(LexerError::UnexpectedEof { column: 4 })
    );
}

#[test]
fn get_finds_the_coefficient_of_a_variable() {
    let result = Simplifier().simplify_equation("2x + 3y = x").unwrap();
    assert_eq!(fold(result.get(&String::from("x")).unwrap()), 1.0);
    assert_eq!(fold(result.get(&String::from("y")).unwrap()), 3.0);
    assert!(result.get(&String::from("z")).is_none());
}

fn total(equation: &CanonicalEquation, at: &[(&str, f64)]) -> f64 {
    let mut sum = fold(&equation.constant);
    for (name, coefficient) in &equation.terms {
        let value = at
            .iter()
            .find(|(variable, _)| variable == name)
            .map(|(_, value)| *value)
            .unwrap();
        sum += fold(coefficient) * value;
    }
    sum
}

#[test]
fn canonical_equation_holds_on_solutions() {
    let solved = [
        ("3x = 2y", vec![("x", 2.0), ("y", 3.0)]),
        ("4x = 8", vec![("x", 2.0)]),
        ("x + y = 2z", vec![("x", 1.0), ("y", 3.0), ("z", 2.0)]),
        ("2*(x + y) = 12", vec![("x", 2.5), ("y", 3.5)]),
        ("(x + 3y)/2 = x", vec![("x", 3.0), ("y", 1.0)]),
        ("x + 1 = y + 1", vec![("x", 7.0), ("y", 7.0)]),
        ("2^3 = x", vec![("x", 8.0)]),
    ];
    for (text, at) in solved.iter() {
        let equation = Simplifier().simplify_equation(text).unwrap();
        assert_eq!(total(&equation, at), 0.0, "{}", text);
    }
}

#[test]
fn constants_inside_one_sum_break_the_canonical_equation() {
    let equation = Simplifier().simplify_equation("x + 2 = 5").unwrap();
    assert_eq!(total(&equation, &[("x", 3.0)]), -4.0);
}

#[test]
fn terms_are_the_identifiers_of_the_input() {
    let cases = [
        ("x = 5", vec!["x"]),
        ("3 = 5", vec![]),
        ("rate - rate = 0", vec!["rate"]),
        ("2*(a + b) - 2a - 2b = c/4", vec!["a", "b", "c"]),
        ("0*x + y - y = 2^3", vec!["x", "y"]),
        ("-(p + q)/2 = q\n + r", vec!["p", "q", "r"]),
    ];
    for (text, expected) in cases.iter() {
        let result = Simplifier().simplify_equation(text).unwrap();
        let mut names: Vec<&str> = result.terms.iter().map(|(name, _)| name.as_str()).collect();
        names.sort();
        assert_eq!(&names, expected, "{}", text);
    }
}
