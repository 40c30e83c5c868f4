use calculator::ast::Operator;
use calculator::evaluate_expression;
use calculator::parser::{ParseError, Parser};
use calculator::rational::Rational;
use calculator::token::Token;
use calculator::tokenizer::{LexError, Tokenizer};
use calculator::ExprError;

fn tokenize(input: &str) -> Vec<Token> {
    let mut tokenizer = Tokenizer::new(input).expect("empty expression");
    tokenizer.tokens().expect("lexical error")
}

fn eval_f64(input: &str) -> f64 {
    let v = evaluate_expression(input).expect("evaluation failed");
    v.num as f64 / v.den as f64
}

#[test]
fn test_separators_are_transparent() {
    let plain = tokenize("1000");
    assert_eq!(tokenize("1,000"), plain);
    assert_eq!(tokenize("1_000"), plain);
    assert_eq!(plain, vec![Token::Number(Rational { num: 1000, den: 1 })]);
    assert_eq!(eval_f64("1,000 + 1_000"), 2000.0);
}

#[test]
fn test_relexing_and_reparsing_agree() {
    let input = "2 + (4 * 2) * 2";
    assert_eq!(tokenize(input), tokenize(input));
    let mut first = Parser::new(tokenize(input));
    let mut second = Parser::new(tokenize(input));
    assert_eq!(
        first.parse().expect("parse error"),
        second.parse().expect("parse error")
    );
}

#[test]
fn test_implicit_multiplication_matches_explicit() {
    assert_eq!(eval_f64("2(3+4)"), 14.0);
    assert_eq!(eval_f64("2(3+4)"), eval_f64("2*(3+4)"));
    assert_eq!(eval_f64("(2+3)*4"), eval_f64("(2+3)(4)"));
    assert_eq!(eval_f64("2(2)(3)"), eval_f64("2*2*3"));
}

#[test]
fn test_nested_parentheses_reduce() {
    assert_eq!(eval_f64("((1+2)*(3+4))"), 21.0);
    assert_eq!(eval_f64("((((5))))"), 5.0);
    assert_eq!(eval_f64("(((1+2)))*(((3)))"), 9.0);
}

#[test]
fn test_concrete_scenarios() {
    assert_eq!(eval_f64("1 + 1"), 2.0);
    assert_eq!(eval_f64("2 + 3 * 4"), 14.0);
    assert_eq!(eval_f64("(2 + 3) * 4"), 20.0);
    assert_eq!(eval_f64("(1 - 2) * (3 + 4)"), -7.0);
    assert_eq!(eval_f64("10 / 2 - 1"), 4.0);
    assert_eq!(eval_f64("2 + (4 * 2) * 2"), 18.0);
}

#[test]
fn test_empty_input_fails_before_scanning() {
    assert!(matches!(Tokenizer::new(""), Err(LexError::EmptyInput)));
    assert_eq!(
        evaluate_expression(""),
        Err(ExprError::Lex(LexError::EmptyInput))
    );
}

#[test]
fn test_unknown_character_reports_char_and_position() {
    assert_eq!(
        evaluate_expression("1 & 2"),
        Err(ExprError::Lex(LexError::UnknownCharacter {
            character: '&',
            position: 2,
        }))
    );
    assert_eq!(
        evaluate_expression("@1"),
        Err(ExprError::Lex(LexError::UnknownCharacter {
            character: '@',
            position: 0,
        }))
    );
}

#[test]
fn test_malformed_numbers_are_conversion_errors() {
    assert_eq!(
        evaluate_expression("1.2.3"),
        Err(ExprError::Lex(LexError::InvalidNumber { position: 0 }))
    );
    assert_eq!(
        evaluate_expression("99999999999999999999"),
        Err(ExprError::Lex(LexError::InvalidNumber { position: 0 }))
    );
    assert_eq!(eval_f64("1."), 1.0);
}

#[test]
fn test_structural_errors() {
    assert_eq!(
        evaluate_expression("1 +"),
        Err(ExprError::Parse(ParseError::MissingLeftOperand))
    );
    assert_eq!(
        evaluate_expression("*"),
        Err(ExprError::Parse(ParseError::MissingRightOperand))
    );
    assert_eq!(
        evaluate_expression("(1 + 2"),
        Err(ExprError::Parse(ParseError::UnmatchedParenthesis))
    );
    assert_eq!(
        evaluate_expression("1 + 2)"),
        Err(ExprError::Parse(ParseError::UnmatchedParenthesis))
    );
}

#[test]
fn test_prefix_minus() {
    assert_eq!(eval_f64("-3 + 5"), 2.0);
    assert_eq!(eval_f64("2 - -3"), 5.0);
    assert_eq!(eval_f64("-(1 + 2)"), -3.0);
    assert_eq!(eval_f64("2 * -3"), -6.0);
}

#[test]
fn test_decimal_arithmetic_is_exact() {
    assert_eq!(eval_f64("1.5 + 2.25"), 3.75);
    assert_eq!(eval_f64("0.1 + 0.2"), 0.3);
}

#[test]
fn test_token_queries() {
    let number = Token::Number(Rational { num: 3, den: 1 });
    assert!(number.is_number());
    assert!(!number.is_operator());
    assert_eq!(number.value(), Rational { num: 3, den: 1 });

    assert!(Token::Plus.is_operator());
    assert_eq!(Token::Plus.operator(), Operator::Add);
    assert_eq!(Token::Minus.operator(), Operator::Subtract);
    assert_eq!(Token::Times.operator(), Operator::Multiply);
    assert_eq!(Token::Divide.operator(), Operator::Divide);

    assert_eq!(Token::Plus.precedence(), 0);
    assert_eq!(Token::Minus.precedence(), 0);
    assert_eq!(Token::Times.precedence(), 1);
    assert_eq!(Token::Divide.precedence(), 1);

    assert!(Token::LParen.is_lparen());
    assert!(!Token::LParen.is_rparen());
    assert!(Token::RParen.is_rparen());
    assert!(!Token::RParen.is_lparen());
}

#[test]
fn test_whitespace_forms_are_skipped() {
    assert_eq!(eval_f64("1\t+\n2"), 3.0);
    assert_eq!(eval_f64("1\u{00A0}+ 2"), 3.0);
    assert_eq!(
        evaluate_expression("   "),
        Err(ExprError::Parse(ParseError::EmptyExpression))
    );
}

#[test]
fn test_scanner_stepping() {
    let mut t = Tokenizer::new("a b").expect("empty expression");
    assert_eq!(t.peek(), Some('a'));
    assert_eq!(t.consume(), Some('a'));
    t.skip_whitespace();
    assert_eq!(t.peek(), Some('b'));
    t.advance();
    assert_eq!(t.peek(), None);
    assert_eq!(t.consume(), None);
}
