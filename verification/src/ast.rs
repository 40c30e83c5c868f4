use vstd::prelude::*;

use crate::rational::{rat_add, rat_div, rat_fits, rat_mul, rat_neg, rat_sub, RatVal, Rational};

verus! {

/// A node of the expression tree: a literal, a binary operation owning both
/// subtrees, or a unary operation owning its operand.
#[derive(Debug)]
pub enum AstNode {
    Number(Rational),
    BinaryOp(Box<AstNode>, Operator, Box<AstNode>),
    UnaryOp(UnaryOp, Box<AstNode>),
}

/// A prefix operator.
#[derive(Debug, Clone, Copy, PartialEq, Eq, Structural)]
pub enum UnaryOp {
    Positive,
    Negative,
}

/// A binary arithmetic operator.
#[derive(Debug, Clone, Copy, PartialEq, Eq, Structural)]
pub enum Operator {
    Add,
    Subtract,
    Multiply,
    Divide,
}

/// Why an evaluation failed.
#[derive(Debug, Clone, Copy, PartialEq, Eq, Structural)]
pub enum EvalError {
    /// The right operand of a division evaluated to zero.
    DivisionByZero,
    /// An intermediate value left the representable range of `Rational`.
    Overflow,
}

/// All number leaves of a tree are well-formed.
pub open spec fn ast_wf(n: AstNode) -> bool
    decreases n,
{
    match n {
        AstNode::Number(v) => v.wf(),
        AstNode::BinaryOp(l, _, r) => ast_wf(*l) && ast_wf(*r),
        AstNode::UnaryOp(_, m) => ast_wf(*m),
    }
}

/// Number of nodes of a tree; the recursion measure of evaluation.
pub open spec fn ast_size(n: AstNode) -> nat
    decreases n,
{
    match n {
        AstNode::Number(_) => 1,
        AstNode::BinaryOp(l, _, r) => 1 + ast_size(*l) + ast_size(*r),
        AstNode::UnaryOp(_, m) => 1 + ast_size(*m),
    }
}

proof fn lemma_ast_size_pos(n: AstNode)
    ensures
        ast_size(n) >= 1,
{
    match n {
        AstNode::Number(_) => {},
        AstNode::BinaryOp(_, _, _) => {},
        AstNode::UnaryOp(_, _) => {},
    }
}

/// The value, if it is representable, else an overflow error.
pub open spec fn fit_or_overflow(v: RatVal) -> Result<RatVal, EvalError> {
    if rat_fits(v) {
        Ok(v)
    } else {
        Err(EvalError::Overflow)
    }
}

/// What applying a binary operator to two already-evaluated operands yields.
pub open spec fn spec_apply(op: Operator, a: RatVal, b: RatVal) -> Result<RatVal, EvalError> {
    match op {
        Operator::Add => fit_or_overflow(rat_add(a, b)),
        Operator::Subtract => fit_or_overflow(rat_sub(a, b)),
        Operator::Multiply => fit_or_overflow(rat_mul(a, b)),
        Operator::Divide => if b.num == 0 {
            Err(EvalError::DivisionByZero)
        } else {
            fit_or_overflow(rat_div(a, b))
        },
    }
}

/// The value of a binary node: left operand first, then right, then the
/// operator; the first failure wins.
pub open spec fn spec_eval_binary(op: Operator, l: AstNode, r: AstNode) -> Result<
    RatVal,
    EvalError,
>
    decreases ast_size(l) + ast_size(r), 1int,
{
    match spec_eval(l) {
        Err(e) => Err(e),
        Ok(a) => match spec_eval(r) {
            Err(e) => Err(e),
            Ok(b) => spec_apply(op, a, b),
        },
    }
}

/// The value of a unary node.
pub open spec fn spec_eval_unary(u: UnaryOp, m: AstNode) -> Result<RatVal, EvalError>
    decreases ast_size(m), 1int,
{
    match spec_eval(m) {
        Err(e) => Err(e),
        Ok(a) => match u {
            UnaryOp::Positive => Ok(a),
            UnaryOp::Negative => fit_or_overflow(rat_neg(a)),
        },
    }
}

/// The exact value of a tree: standard rational arithmetic, with division by
/// zero and values outside the representable range reported as errors.
pub open spec fn spec_eval(n: AstNode) -> Result<RatVal, EvalError>
    decreases ast_size(n), 0int,
{
    match n {
        AstNode::Number(v) => Ok(v@),
        AstNode::BinaryOp(l, op, r) => spec_eval_binary(op, *l, *r),
        AstNode::UnaryOp(u, m) => spec_eval_unary(u, *m),
    }
}

/// The mathematical value of an executable evaluation result.
pub open spec fn eval_view(r: Result<Rational, EvalError>) -> Result<RatVal, EvalError> {
    match r {
        Ok(v) => Ok(v@),
        Err(e) => Err(e),
    }
}

impl UnaryOp {
    /// Evaluates the operand, then negates for `Negative` and passes the value
    /// through for `Positive`.
    pub fn eval(&self, n: &Box<AstNode>) -> (r: Result<Rational, EvalError>)
        requires
            ast_wf(**n),
        ensures
            eval_view(r) == spec_eval_unary(*self, **n),
            r matches Ok(v) ==> v.wf(),
        decreases ast_size(**n), 1int,
    {
        let a = match n.eval() {
            Ok(v) => v,
            Err(e) => {
                return Err(e);
            },
        };
        match self {
            UnaryOp::Positive => Ok(a),
            UnaryOp::Negative => match a.checked_neg() {
                Some(v) => Ok(v),
                None => Err(EvalError::Overflow),
            },
        }
    }
}

impl Operator {
    /// Evaluates both operands (left first) and applies the operator's exact
    /// rational arithmetic.
    pub fn eval(&self, lhs: &Box<AstNode>, rhs: &Box<AstNode>) -> (r: Result<Rational, EvalError>)
        requires
            ast_wf(**lhs),
            ast_wf(**rhs),
        ensures
            eval_view(r) == spec_eval_binary(*self, **lhs, **rhs),
            r matches Ok(v) ==> v.wf(),
        decreases ast_size(**lhs) + ast_size(**rhs), 1int,
    {
        proof {
            lemma_ast_size_pos(**lhs);
            lemma_ast_size_pos(**rhs);
        }
        let a = match lhs.eval() {
            Ok(v) => v,
            Err(e) => {
                return Err(e);
            },
        };
        let b = match rhs.eval() {
            Ok(v) => v,
            Err(e) => {
                return Err(e);
            },
        };
        let applied = match self {
            Operator::Add => a.checked_add(&b),
            Operator::Subtract => a.checked_sub(&b),
            Operator::Multiply => a.checked_mul(&b),
            Operator::Divide => {
                if b.num == 0 {
                    return Err(EvalError::DivisionByZero);
                }
                a.checked_div(&b)
            },
        };
        match applied {
            Some(v) => Ok(v),
            None => Err(EvalError::Overflow),
        }
    }
}

impl AstNode {
    /// The exact value of the tree, by recursive descent; see `spec_eval`.
    pub fn eval(&self) -> (r: Result<Rational, EvalError>)
        requires
            ast_wf(*self),
        ensures
            eval_view(r) == spec_eval(*self),
            r matches Ok(v) ==> v.wf(),
        decreases ast_size(*self), 0int,
    {
        match self {
            AstNode::Number(number) => Ok(*number),
            AstNode::BinaryOp(lhs, op, rhs) => op.eval(lhs, rhs),
            AstNode::UnaryOp(unary_op, number) => unary_op.eval(number),
        }
    }
}

/// Structural equality of trees, the meaning of `==` on `AstNode`.
pub fn ast_eq(a: &AstNode, b: &AstNode) -> (r: bool)
    ensures
        r == (a == b),
    decreases ast_size(*a),
{
    proof {
        lemma_ast_size_pos(*a);
    }
    match (a, b) {
        (AstNode::Number(x), AstNode::Number(y)) => x == y,
        (AstNode::BinaryOp(l1, o1, r1), AstNode::BinaryOp(l2, o2, r2)) => o1 == o2 && ast_eq(
            l1,
            l2,
        ) && ast_eq(r1, r2),
        (AstNode::UnaryOp(u1, m1), AstNode::UnaryOp(u2, m2)) => u1 == u2 && ast_eq(m1, m2),
        _ => false,
    }
}

impl PartialEq for AstNode {
    /// Trees are compared structurally, leaf by leaf.
    fn eq(&self, other: &AstNode) -> (r: bool) {
        ast_eq(self, other)
    }
}

impl vstd::std_specs::cmp::PartialEqSpecImpl for AstNode {
    open spec fn obeys_eq_spec() -> bool {
        true
    }

    open spec fn eq_spec(&self, other: &AstNode) -> bool {
        *self == *other
    }
}

} // verus!
