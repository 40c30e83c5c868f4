use calculator::ast::AstNode;
use calculator::ast::EvalError;
use calculator::ExprError;
use calculator::evaluate_expression;
use calculator::parser::Parser;
use calculator::rational::Rational;
use calculator::tokenizer::Tokenizer;

fn as_f64(v: Rational) -> f64 {
    v.num as f64 / v.den as f64
}

#[test]
fn test() {
    let expressions = vec![
        "1 + 1",
        "2 * 3",
        "4 - 2",
        "6 / 3",
        "2 + 3 * 4",
        "10 / 2 - 1",
        "2(3 + 4)",
        "(2 + 3) * 4",
        "(1 - 2) * (3 + 4)",
        "2(2)(3)",
        "(2 + 3)(4 - 1)",
        "2 + (3 * 4) - (1 / 2)",
        "3 * (2 + 1)",
        "(5 - 2) * (1 + 2) / 3",
        "2 + (4 * 2) * 2",
        "(2)(2)",
        "2(2 + 3)",
        "(2 - 1)(3 + 2)",
        "-3 + 5",
        "1 + 2 * 3 - 4 / 5",
    ];
    let expected_results = vec![
        2.0, 6.0, 2.0, 2.0, 14.0, 4.0, 14.0, 20.0, -7.0, 12.0, 15.0, 13.5, 9.0, 3.0, 18.0, 4.0,
        10.0, 5.0, 2.0, 6.2,
    ];
    for i in 0..20 {
        let result = evaluate_expression(expressions[i]).expect("evaluation failed");
        assert_eq!(as_f64(result), expected_results[i]);
    }
}

#[test]
fn test_pipeline_matches_staged_calls() {
    let input = "2 + 3 * 4";
    let mut tokenizer = Tokenizer::new(input).expect("empty expression");
    let tokens = tokenizer.tokens().expect("lexical error");
    let mut parser = Parser::new(tokens);
    let tree = parser.parse().expect("parse error");
    let staged = tree.eval().expect("evaluation failed");
    let direct = evaluate_expression(input).expect("evaluation failed");
    assert_eq!(staged, direct);
    assert_eq!(as_f64(direct), 14.0);
}

#[test]
fn test_eval_methods_directly() {
    let one_half = AstNode::BinaryOp(
        Box::new(AstNode::Number(Rational { num: 1, den: 1 })),
        calculator::ast::Operator::Divide,
        Box::new(AstNode::Number(Rational { num: 2, den: 1 })),
    );
    let v = one_half.eval().expect("evaluation failed");
    assert_eq!(as_f64(v), 0.5);

    let op = calculator::ast::Operator::Subtract;
    let lhs = Box::new(AstNode::Number(Rational { num: 7, den: 1 }));
    let rhs = Box::new(AstNode::Number(Rational { num: 9, den: 1 }));
    let d = op.eval(&lhs, &rhs).expect("evaluation failed");
    assert_eq!(as_f64(d), -2.0);

    let neg = calculator::ast::UnaryOp::Negative;
    let operand = Box::new(AstNode::Number(Rational { num: 3, den: 2 }));
    let n = neg.eval(&operand).expect("evaluation failed");
    assert_eq!(as_f64(n), -1.5);

    let pos = calculator::ast::UnaryOp::Positive;
    let p = pos.eval(&operand).expect("evaluation failed");
    assert_eq!(as_f64(p), 1.5);
}

#[test]
fn test_division_by_zero_is_an_error() {
    assert_eq!(
        evaluate_expression("1 / 0"),
        Err(ExprError::Eval(EvalError::DivisionByZero))
    );
    assert_eq!(
        evaluate_expression("1 / (2 - 2)"),
        Err(ExprError::Eval(EvalError::DivisionByZero))
    );
}

#[test]
fn test_overflow_is_an_error() {
    assert_eq!(
        evaluate_expression("9999999999 * 9999999999"),
        Err(ExprError::Eval(EvalError::Overflow))
    );
}
