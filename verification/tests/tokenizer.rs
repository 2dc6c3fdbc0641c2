use syntax::tokenizer::{tokenize, Token, TokenType, Tokenizer, TokenizerError};
use syntax::Number;

fn fold(number: &Number) -> f64 {
    match number {
        Number::Integer(value) => *value as f64,
        Number::TenToMinus(count) => {
            if *count > i32::MAX as usize {
                0.0
            } else {
                10f64.powi(-(*count as i32))
            }
        }
        Number::Negated(inner) => -fold(inner),
        Number::Plus(left, right) => fold(left) + fold(right),
        Number::Minus(left, right) => fold(left) - fold(right),
        Number::Times(left, right) => fold(left) * fold(right),
        Number::Over(left, right) => fold(left) / fold(right),
        Number::RaisedTo(left, right) => fold(left).powf(fold(right)),
    }
}

#[derive(Debug, PartialEq)]
enum Kind {
    Number(f64),
    Identifier(String),
    Star,
    Plus,
    Slash,
    Minus,
    LeftParen,
    RightParen,
    Equal,
    Hat,
}

fn kind_of(token_type: &TokenType) -> Kind {
    match token_type {
        TokenType::Number(value) => Kind::Number(fold(value)),
        TokenType::Identifier(name) => Kind::Identifier(name.clone()),
        TokenType::Star => Kind::Star,
        TokenType::Plus => Kind::Plus,
        TokenType::Slash => Kind::Slash,
        TokenType::Minus => Kind::Minus,
        TokenType::LeftParen => Kind::LeftParen,
        TokenType::RightParen => Kind::RightParen,
        TokenType::Equal => Kind::Equal,
        TokenType::Hat => Kind::Hat,
    }
}

fn seen(token: &Token) -> (Kind, String, usize) {
    (kind_of(&token.token_type), token.lexeme.clone(), token.column)
}

fn expected(kind: Kind, lexeme: &str, column: usize) -> (Kind, String, usize) {
    (kind, String::from(lexeme), column)
}

fn scan(source: &str) -> Vec<(Kind, String, usize)> {
    let mut scanner = Tokenizer::new(source.as_bytes().to_vec());
    let mut result = Vec::new();
    while let Some(token) = scanner.next() {
        result.push(seen(&token.unwrap()));
    }
    result
}

#[test]
fn test_identifier() {
    let source = "x yz a";
    let result = scan(source);

    assert_eq!(
        result,
        [
            expected(Kind::Identifier(String::from("x")), "x", 1),
            expected(Kind::Identifier(String::from("yz")), "yz", 3),
            expected(Kind::Identifier(String::from("a")), "a", 6),
        ]
    )
}

#[test]
fn test_number_literal() {
    let source = "1.5 2.5 10 32.5 1.2";
    let result = scan(source);

    assert_eq!(
        result,
        [
            expected(Kind::Number(1.5), "1.5", 1),
            expected(Kind::Number(2.5), "2.5", 5),
            expected(Kind::Number(10.0), "10", 9),
            expected(Kind::Number(32.5), "32.5", 12),
            expected(Kind::Number(1.2), "1.2", 17),
        ]
    )
}

#[test]
fn test_sum_expression() {
    let source = "1.5x + 3y +2";
    let result = scan(source);

    assert_eq!(
        result,
        [
            expected(Kind::Number(1.5), "1.5", 1),
            expected(Kind::Identifier(String::from("x")), "x", 4),
            expected(Kind::Plus, "+", 6),
            expected(Kind::Number(3.0), "3", 8),
            expected(Kind::Identifier(String::from("y")), "y", 9),
            expected(Kind::Plus, "+", 11),
            expected(Kind::Number(2.0), "2", 12),
        ]
    );
}

#[test]
fn test_subtract_expression() {
    let source = "1.5x - 3y -2";
    let result = scan(source);

    assert_eq!(
        result,
        [
            expected(Kind::Number(1.5), "1.5", 1),
            expected(Kind::Identifier(String::from("x")), "x", 4),
            expected(Kind::Minus, "-", 6),
            expected(Kind::Number(3.0), "3", 8),
            expected(Kind::Identifier(String::from("y")), "y", 9),
            expected(Kind::Minus, "-", 11),
            expected(Kind::Number(2.0), "2", 12),
        ]
    );
}

#[test]
fn test_grouping_multiplication() {
    let source = "(1.5x - 3y) * 2 / 4";
    let result = scan(source);

    assert_eq!(
        result,
        [
            expected(Kind::LeftParen, "(", 1),
            expected(Kind::Number(1.5), "1.5", 2),
            expected(Kind::Identifier(String::from("x")), "x", 5),
            expected(Kind::Minus, "-", 7),
            expected(Kind::Number(3.0), "3", 9),
            expected(Kind::Identifier(String::from("y")), "y", 10),
            expected(Kind::RightParen, ")", 11),
            expected(Kind::Star, "*", 13),
            expected(Kind::Number(2.0), "2", 15),
            expected(Kind::Slash, "/", 17),
            expected(Kind::Number(4.0), "4", 19),
        ]
    );
}

#[test]
fn test_simple_equality() {
    let source = "3 = 3";
    let result = scan(source);

    assert_eq!(
        result,
        [
            expected(Kind::Number(3.0), "3", 1),
            expected(Kind::Equal, "=", 3),
            expected(Kind::Number(3.0), "3", 5),
        ]
    );
}

#[test]
fn test_exponent() {
    let source = "3^2 = 9^(y + 2)";
    let result = scan(source);

    assert_eq!(
        result,
        [
            expected(Kind::Number(3.0), "3", 1),
            expected(Kind::Hat, "^", 2),
            expected(Kind::Number(2.0), "2", 3),
            expected(Kind::Equal, "=", 5),
            expected(Kind::Number(9.0), "9", 7),
            expected(Kind::Hat, "^", 8),
            expected(Kind::LeftParen, "(", 9),
            expected(Kind::Identifier(String::from("y")), "y", 10),
            expected(Kind::Plus, "+", 12),
            expected(Kind::Number(2.0), "2", 14),
            expected(Kind::RightParen, ")", 15)
        ]
    )
}

#[test]
fn literal_value_is_built_digit_by_digit() {
    let tokens = tokenize("32.5".as_bytes().to_vec()).unwrap();
    assert_eq!(tokens.len(), 1);
    let whole = Number::Plus(
        Box::new(Number::Times(
            Box::new(Number::Integer(3)),
            Box::new(Number::Integer(10)),
        )),
        Box::new(Number::Integer(2)),
    );
    let value = Number::Plus(
        Box::new(whole),
        Box::new(Number::Times(
            Box::new(Number::Integer(5)),
            Box::new(Number::TenToMinus(1)),
        )),
    );
    assert_eq!(tokens[0].token_type, TokenType::Number(value));
    assert_eq!(tokens[0].lexeme, "32.5");
}

#[test]
fn second_point_ends_a_literal() {
    let mut scanner = Tokenizer::new("1.5.25".as_bytes().to_vec());
    assert_eq!(
        seen(&scanner.next().unwrap().unwrap()),
        expected(Kind::Number(1.5), "1.5", 1)
    );
    assert_eq!(
        scanner.next().unwrap(),
        Err(TokenizerError::UnknownCharacter(b'.', 4))
    );
    assert_eq!(seen(&scanner.next().unwrap().unwrap()), expected(Kind::Number(25.0), "25", 5));
    assert!(scanner.next().is_none());
}

#[test]
fn point_without_digits_belongs_to_the_literal() {
    let result = scan("7. + 1");
    assert_eq!(
        result,
        [
            expected(Kind::Number(7.0), "7.", 1),
            expected(Kind::Plus, "+", 4),
            expected(Kind::Number(1.0), "1", 6),
        ]
    );
}

#[test]
fn fraction_digits_use_negative_powers_of_ten() {
    let result = scan("0.125");
    assert_eq!(result, [expected(Kind::Number(0.125), "0.125", 1)]);
    let tokens = tokenize("0.05".as_bytes().to_vec()).unwrap();
    match &tokens[0].token_type {
        TokenType::Number(Number::Plus(_, last)) => {
            assert_eq!(
                **last,
                Number::Times(
                    Box::new(Number::Integer(5)),
                    Box::new(Number::TenToMinus(2))
                )
            );
        }
        other => panic!("not a literal with a fraction: {:?}", other),
    }
}

#[test]
fn identifiers_are_scanned_greedily() {
    let result = scan("rate_2 _x9");
    assert_eq!(
        result,
        [
            expected(Kind::Identifier(String::from("rate_2")), "rate_2", 1),
            expected(Kind::Identifier(String::from("_x9")), "_x9", 8),
        ]
    );
}

#[test]
fn digits_before_letters_are_a_number_and_a_name() {
    let result = scan("12ab");
    assert_eq!(
        result,
        [
            expected(Kind::Number(12.0), "12", 1),
            expected(Kind::Identifier(String::from("ab")), "ab", 3),
        ]
    );
}

#[test]
fn columns_start_again_behind_a_line_break() {
    let result = scan("x +\n  y\r=\t3");
    assert_eq!(
        result,
        [
            expected(Kind::Identifier(String::from("x")), "x", 1),
            expected(Kind::Plus, "+", 3),
            expected(Kind::Identifier(String::from("y")), "y", 3),
            expected(Kind::Equal, "=", 1),
            expected(Kind::Number(3.0), "3", 3),
        ]
    );
}

#[test]
fn unknown_character_reports_byte_and_column() {
    assert_eq!(
        tokenize("x = $".as_bytes().to_vec()),
        Err(TokenizerError::UnknownCharacter(b'$', 5))
    );
    assert_eq!(
        tokenize("x\n  ?".as_bytes().to_vec()),
        Err(TokenizerError::UnknownCharacter(b'?', 3))
    );
    assert_eq!(
        tokenize(vec![b'1', 0xc3, 0xa9]),
        Err(TokenizerError::UnknownCharacter(0xc3, 2))
    );
}

#[test]
fn scanning_goes_on_behind_an_unknown_character() {
    let mut scanner = Tokenizer::new("a # b".as_bytes().to_vec());
    assert_eq!(
        seen(&scanner.next().unwrap().unwrap()),
        expected(Kind::Identifier(String::from("a")), "a", 1)
    );
    assert_eq!(
        scanner.next().unwrap(),
        Err(TokenizerError::UnknownCharacter(b'#', 3))
    );
    assert_eq!(
        seen(&scanner.next().unwrap().unwrap()),
        expected(Kind::Identifier(String::from("b")), "b", 5)
    );
    assert!(scanner.next().is_none());
    assert!(scanner.next().is_none());
}

#[test]
fn empty_and_blank_inputs_have_no_tokens() {
    assert_eq!(tokenize(Vec::new()), Ok(Vec::new()));
    assert_eq!(tokenize(" \t\n\r ".as_bytes().to_vec()), Ok(Vec::new()));
}

#[test]
fn advance_consumes_one_byte_at_a_time() {
    let mut scanner = Tokenizer::new("ab".as_bytes().to_vec());
    assert_eq!(scanner.advance(), Some(b'a'));
    assert_eq!(scanner.advance(), Some(b'b'));
    assert_eq!(scanner.advance(), None);
    assert_eq!(scanner.advance(), None);
}

#[test]
fn consume_whitespace_returns_the_byte_behind_the_blanks() {
    let mut scanner = Tokenizer::new(" \t\n x y".as_bytes().to_vec());
    assert_eq!(scanner.consume_whitespace(), Some(b'x'));
    assert_eq!(scanner.consume_whitespace(), Some(b'y'));
    assert_eq!(scanner.consume_whitespace(), None);
}

#[test]
fn lexeme_into_utf8_decodes_or_reports_the_column() {
    let mut scanner = Tokenizer::new("abc".as_bytes().to_vec());
    assert_eq!(
        scanner.lexeme_into_utf8(vec![0x68, 0xc3, 0xa9]),
        Ok(String::from("h\u{e9}"))
    );
    assert_eq!(
        scanner.lexeme_into_utf8(vec![0xff, 0x41]),
        Err(TokenizerError::NoUtf8(0))
    );
    scanner.advance();
    scanner.advance();
    assert_eq!(
        scanner.lexeme_into_utf8(vec![0xc3]),
        Err(TokenizerError::NoUtf8(2))
    );
}

#[test]
fn token_new_keeps_its_parts() {
    let token = Token::new(TokenType::Star, String::from("*"), 7);
    assert_eq!(token.token_type, TokenType::Star);
    assert_eq!(token.lexeme, "*");
    assert_eq!(token.column, 7);
    assert_eq!(token.clone(), token);
}

#[test]
fn columns_are_right_in_whatever_state_the_scanner_is() {
    let mut scanner = Tokenizer::new("ab\ncd ef".as_bytes().to_vec());
    assert_eq!(scanner.advance(), Some(b'a'));
    assert_eq!(scanner.advance(), Some(b'b'));
    assert_eq!(scanner.advance(), Some(b'\n'));
    assert_eq!(
        scanner.lexeme_into_utf8(vec![0xff]),
        Err(TokenizerError::NoUtf8(0))
    );
    assert_eq!(scanner.advance(), Some(b'c'));
    assert_eq!(
        seen(&scanner.next().unwrap().unwrap()),
        expected(Kind::Identifier(String::from("d")), "d", 2)
    );
    assert_eq!(scanner.consume_whitespace(), Some(b'e'));
    assert_eq!(
        seen(&scanner.next().unwrap().unwrap()),
        expected(Kind::Identifier(String::from("f")), "f", 5)
    );
    assert!(scanner.next().is_none());
}
