use calculator::rational::Rational;
use calculator::token::Token;
use calculator::tokenizer::Tokenizer;

fn tokenize(input: &str) -> Vec<Token> {
    let mut tokenizer = Tokenizer::new(input).expect("empty expression");
    tokenizer.tokens().expect("lexical error")
}

fn num(n: i64) -> Token {
    Token::Number(Rational { num: n, den: 1 })
}

#[test]
fn test_tokenize_simple_expression() {
    let input = "1 + 2";
    let expected = vec![num(1), Token::Plus, num(2)];
    assert_eq!(tokenize(input), expected);
}

#[test]
fn test_tokenize_with_parentheses() {
    let input = "(1 + 2) * 3";
    let expected = vec![
        Token::LParen,
        num(1),
        Token::Plus,
        num(2),
        Token::RParen,
        Token::Times,
        num(3),
    ];
    assert_eq!(tokenize(input), expected);
}

#[test]
fn test_tokenize_with_division_and_subtraction() {
    let input = "10 / 2 - 3";
    let expected = vec![num(10), Token::Divide, num(2), Token::Minus, num(3)];
    assert_eq!(tokenize(input), expected);
}

#[test]
fn test_implicit_multiplication_number_and_parenthesis() {
    let input = "2(3 + 4)";
    let expected = vec![
        num(2),
        Token::LParen,
        num(3),
        Token::Plus,
        num(4),
        Token::RParen,
    ];
    assert_eq!(tokenize(input), expected);
}

#[test]
fn tokenizer_test_implicit_multiplication_between_parentheses() {
    let input = "(2)(3 + 4)";
    let expected = vec![
        Token::LParen,
        num(2),
        Token::RParen,
        Token::LParen,
        num(3),
        Token::Plus,
        num(4),
        Token::RParen,
    ];
    assert_eq!(tokenize(input), expected);
}

#[test]
fn test_tokenize_complex_expression() {
    let input = "3 + 4 * 2 / (1 - 5)";
    let expected = vec![
        num(3),
        Token::Plus,
        num(4),
        Token::Times,
        num(2),
        Token::Divide,
        Token::LParen,
        num(1),
        Token::Minus,
        num(5),
        Token::RParen,
    ];
    assert_eq!(tokenize(input), expected);
}

#[test]
fn test_implicit_multiplication_complex_case() {
    let input = "(1 + 2)(3 + 4)";
    let expected = vec![
        Token::LParen,
        num(1),
        Token::Plus,
        num(2),
        Token::RParen,
        Token::LParen,
        num(3),
        Token::Plus,
        num(4),
        Token::RParen,
    ];
    assert_eq!(tokenize(input), expected);
}

#[test]
fn test_tokenize_decimal_numbers() {
    let input = "1.5 + 2.25";
    let expected = vec![
        Token::Number(Rational { num: 15, den: 10 }),
        Token::Plus,
        Token::Number(Rational { num: 225, den: 100 }),
    ];
    assert_eq!(tokenize(input), expected);
}

#[test]
fn test_tokenize_negative_numbers() {
    let input = "-3 + 2";
    let expected = vec![
        Token::Minus, // Unary minus
        num(3),
        Token::Plus,
        num(2),
    ];
    assert_eq!(tokenize(input), expected);
}
