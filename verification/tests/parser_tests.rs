use calculator::ast::{AstNode, Operator};
use calculator::parser::Parser;
use calculator::rational::Rational;
use calculator::tokenizer::Tokenizer;

fn parse_expression(input: &str) -> AstNode {
    let mut tokenizer = Tokenizer::new(input).expect("empty expression");
    let tokens = tokenizer.tokens().expect("lexical error");
    let mut parser = Parser::new(tokens);
    parser.parse().expect("parse error")
}

fn num(n: i64) -> Box<AstNode> {
    Box::new(AstNode::Number(Rational { num: n, den: 1 }))
}

#[test]
fn test_simple_addition() {
    let input = "1 + 2";
    let expected = AstNode::BinaryOp(num(1), Operator::Add, num(2));
    assert_eq!(parse_expression(input), expected);
}

#[test]
fn test_addition_and_multiplication() {
    let input = "1 + 2 * 3";
    let expected = AstNode::BinaryOp(
        num(1),
        Operator::Add,
        Box::new(AstNode::BinaryOp(num(2), Operator::Multiply, num(3))),
    );
    assert_eq!(parse_expression(input), expected);
}

#[test]
fn test_parentheses() {
    let input = "(1 + 2) * 3";
    let expected = AstNode::BinaryOp(
        Box::new(AstNode::BinaryOp(num(1), Operator::Add, num(2))),
        Operator::Multiply,
        num(3),
    );
    assert_eq!(parse_expression(input), expected);
}

#[test]
fn test_division_and_subtraction() {
    let input = "10 / 2 - 3";
    let expected = AstNode::BinaryOp(
        Box::new(AstNode::BinaryOp(num(10), Operator::Divide, num(2))),
        Operator::Subtract,
        num(3),
    );
    assert_eq!(parse_expression(input), expected);
}

#[test]
fn test_implicit_multiplication_between_number_and_parenthesis() {
    let input = "2(3 + 4)";
    let expected = AstNode::BinaryOp(
        num(2),
        Operator::Multiply,
        Box::new(AstNode::BinaryOp(num(3), Operator::Add, num(4))),
    );
    assert_eq!(parse_expression(input), expected);
}

#[test]
fn parser_test_implicit_multiplication_between_parentheses() {
    let input = "(2)(3 + 4)";
    let expected = AstNode::BinaryOp(
        num(2),
        Operator::Multiply,
        Box::new(AstNode::BinaryOp(num(3), Operator::Add, num(4))),
    );
    assert_eq!(parse_expression(input), expected);
}

#[test]
fn test_nested_parentheses() {
    let input = "((1 + 2) * (3 + 4))";
    let expected = AstNode::BinaryOp(
        Box::new(AstNode::BinaryOp(num(1), Operator::Add, num(2))),
        Operator::Multiply,
        Box::new(AstNode::BinaryOp(num(3), Operator::Add, num(4))),
    );
    assert_eq!(parse_expression(input), expected);
}

#[test]
fn test_complex_expression() {
    let input = "3 + 4 * 2 / (1 - 5)";
    let expected = AstNode::BinaryOp(
        num(3),
        Operator::Add,
        Box::new(AstNode::BinaryOp(
            Box::new(AstNode::BinaryOp(num(4), Operator::Multiply, num(2))),
            Operator::Divide,
            Box::new(AstNode::BinaryOp(num(1), Operator::Subtract, num(5))),
        )),
    );
    assert_eq!(parse_expression(input), expected);
}
