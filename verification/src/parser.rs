use vstd::prelude::*;

use crate::ast::{ast_wf, AstNode, Operator, UnaryOp};
use crate::rational::Rational;
use crate::token::{spec_operator, spec_precedence, token_wf, tokens_wf, Token};

verus! {

/// Why parsing failed.
#[derive(Debug, Clone, Copy, PartialEq, Eq, Structural)]
pub enum ParseError {
    /// An operator had no right operand to combine.
    MissingRightOperand,
    /// An operator had no left operand to combine.
    MissingLeftOperand,
    /// A parenthesis without a partner.
    UnmatchedParenthesis,
    /// The token sequence held no expression at all.
    EmptyExpression,
}

/// One entry of the operator stack: a pending binary operator, an open
/// parenthesis acting as a scope boundary, or a pending prefix minus.
#[derive(Debug, Clone, Copy, PartialEq, Eq, Structural)]
pub enum OpEntry {
    Bin(Operator),
    Open,
    Neg,
}

/// Binding strength of a stack entry: additive operators lowest, then
/// multiplicative ones, then prefix minus.  `Open` never takes part in
/// precedence comparisons.
pub open spec fn entry_prec(e: OpEntry) -> int {
    match e {
        OpEntry::Bin(Operator::Add) | OpEntry::Bin(Operator::Subtract) => 0,
        OpEntry::Bin(Operator::Multiply) | OpEntry::Bin(Operator::Divide) => 1,
        OpEntry::Neg => 2,
        OpEntry::Open => 3,
    }
}

/// The parser's state between tokens: the operand stack, the operator stack
/// (both with their tops at the end), and whether the last token completed an
/// operand (a number or a closing parenthesis).
pub ghost struct ParseState {
    pub operands: Seq<AstNode>,
    pub ops: Seq<OpEntry>,
    pub prev_operand: bool,
}

/// Pops the operands an entry needs, combines them into one node, and pushes
/// it back: two for a binary operator (the right one popped first), one for a
/// prefix minus.
pub open spec fn reduce_once(operands: Seq<AstNode>, e: OpEntry) -> Result<Seq<AstNode>, ParseError> {
    match e {
        OpEntry::Bin(op) => if operands.len() == 0 {
            Err(ParseError::MissingRightOperand)
        } else if operands.len() == 1 {
            Err(ParseError::MissingLeftOperand)
        } else {
            Ok(
                operands.take(operands.len() - 2).push(
                    AstNode::BinaryOp(
                        Box::new(operands[operands.len() - 2]),
                        op,
                        Box::new(operands.last()),
                    ),
                ),
            )
        },
        OpEntry::Neg => if operands.len() == 0 {
            Err(ParseError::MissingRightOperand)
        } else {
            Ok(
                operands.take(operands.len() - 1).push(
                    AstNode::UnaryOp(UnaryOp::Negative, Box::new(operands.last())),
                ),
            )
        },
        OpEntry::Open => Err(ParseError::UnmatchedParenthesis),
    }
}

/// Reduces while the top of the operator stack is no scope boundary and binds
/// at least as tightly as an incoming operator of strength `prec` — the
/// left-associative tie-break.
pub open spec fn reduce_while(operands: Seq<AstNode>, ops: Seq<OpEntry>, prec: int) -> Result<
    (Seq<AstNode>, Seq<OpEntry>),
    ParseError,
>
    decreases ops.len(),
{
    if ops.len() == 0 {
        Ok((operands, ops))
    } else {
        let top = ops.last();
        if top == OpEntry::Open {
            Ok((operands, ops))
        } else if entry_prec(top) >= prec {
            match reduce_once(operands, top) {
                Err(e) => Err(e),
                Ok(reduced) => reduce_while(reduced, ops.drop_last(), prec),
            }
        } else {
            Ok((operands, ops))
        }
    }
}

/// Reduces until the matching open parenthesis is found and discarded; an
/// exhausted stack means the closing parenthesis had no partner.
pub open spec fn reduce_to_open(operands: Seq<AstNode>, ops: Seq<OpEntry>) -> Result<
    (Seq<AstNode>, Seq<OpEntry>),
    ParseError,
>
    decreases ops.len(),
{
    if ops.len() == 0 {
        Err(ParseError::UnmatchedParenthesis)
    } else {
        let top = ops.last();
        if top == OpEntry::Open {
            Ok((operands, ops.drop_last()))
        } else {
            match reduce_once(operands, top) {
                Err(e) => Err(e),
                Ok(reduced) => reduce_to_open(reduced, ops.drop_last()),
            }
        }
    }
}

/// Reduces everything left after the last token; an open parenthesis still on
/// the stack had no partner.
pub open spec fn flush_ops(operands: Seq<AstNode>, ops: Seq<OpEntry>) -> Result<
    Seq<AstNode>,
    ParseError,
>
    decreases ops.len(),
{
    if ops.len() == 0 {
        Ok(operands)
    } else {
        let top = ops.last();
        if top == OpEntry::Open {
            Err(ParseError::UnmatchedParenthesis)
        } else {
            match reduce_once(operands, top) {
                Err(e) => Err(e),
                Ok(reduced) => flush_ops(reduced, ops.drop_last()),
            }
        }
    }
}

/// How one token changes the parser's state.  A number or an opening
/// parenthesis right after a completed operand first behaves as an explicit
/// multiplication: that realizes implicit multiplication, at the same
/// precedence as `*`.  A minus where no operand stands to its left is a
/// prefix minus.
pub open spec fn parse_step(st: ParseState, t: Token) -> Result<ParseState, ParseError> {
    match t {
        Token::Number(v) => match (if st.prev_operand {
            reduce_while(st.operands, st.ops, 1)
        } else {
            Ok((st.operands, st.ops))
        }) {
            Err(e) => Err(e),
            Ok((operands, ops)) => Ok(
                ParseState {
                    operands: operands.push(AstNode::Number(v)),
                    ops: if st.prev_operand {
                        ops.push(OpEntry::Bin(Operator::Multiply))
                    } else {
                        ops
                    },
                    prev_operand: true,
                },
            ),
        },
        Token::LParen => match (if st.prev_operand {
            reduce_while(st.operands, st.ops, 1)
        } else {
            Ok((st.operands, st.ops))
        }) {
            Err(e) => Err(e),
            Ok((operands, ops)) => Ok(
                ParseState {
                    operands,
                    ops: if st.prev_operand {
                        ops.push(OpEntry::Bin(Operator::Multiply)).push(OpEntry::Open)
                    } else {
                        ops.push(OpEntry::Open)
                    },
                    prev_operand: false,
                },
            ),
        },
        Token::RParen => match reduce_to_open(st.operands, st.ops) {
            Err(e) => Err(e),
            Ok((operands, ops)) => Ok(ParseState { operands, ops, prev_operand: true }),
        },
        _ => if t == Token::Minus && !st.prev_operand {
            Ok(
                ParseState {
                    operands: st.operands,
                    ops: st.ops.push(OpEntry::Neg),
                    prev_operand: false,
                },
            )
        } else {
            match reduce_while(st.operands, st.ops, spec_precedence(t)) {
                Err(e) => Err(e),
                Ok((operands, ops)) => Ok(
                    ParseState {
                        operands,
                        ops: ops.push(OpEntry::Bin(spec_operator(t))),
                        prev_operand: false,
                    },
                ),
            }
        },
    }
}

/// The tree the tokens from index `i` on build, starting from state `st`:
/// each token is folded into the state, the remaining operators are flushed,
/// and the top of the operand stack is the result.
pub open spec fn parse_from(tokens: Seq<Token>, i: int, st: ParseState) -> Result<
    AstNode,
    ParseError,
>
    decreases tokens.len() - i,
{
    if i < 0 || i >= tokens.len() {
        match flush_ops(st.operands, st.ops) {
            Err(e) => Err(e),
            Ok(operands) => if operands.len() == 0 {
                Err(ParseError::EmptyExpression)
            } else {
                Ok(operands.last())
            },
        }
    } else {
        match parse_step(st, tokens[i]) {
            Err(e) => Err(e),
            Ok(st2) => parse_from(tokens, i + 1, st2),
        }
    }
}

/// The initial state: empty stacks, no operand yet.
pub open spec fn initial_state() -> ParseState {
    ParseState { operands: Seq::empty(), ops: Seq::empty(), prev_operand: false }
}

/// The tree a whole token sequence parses to.
pub open spec fn spec_parse(tokens: Seq<Token>) -> Result<AstNode, ParseError> {
    parse_from(tokens, 0, initial_state())
}

/// All trees of an operand stack are well-formed.
pub open spec fn operands_wf(operands: Seq<AstNode>) -> bool {
    forall|i: int| 0 <= i < operands.len() ==> #[trigger] ast_wf(operands[i])
}

/// An operator-precedence parser over the whole token sequence, by the
/// two-stack algorithm that `parse_from` states.
pub struct Parser {
    tokens: Vec<Token>,
}

impl View for Parser {
    type V = Seq<Token>;

    closed spec fn view(&self) -> Seq<Token> {
        self.tokens@
    }
}

fn reduce_once_exec(operands: &mut Vec<AstNode>, e: OpEntry) -> (r: Result<(), ParseError>)
    requires
        operands_wf(old(operands)@),
    ensures
        match r {
            Ok(()) => reduce_once(old(operands)@, e) == Ok::<Seq<AstNode>, ParseError>(
                final(operands)@,
            ) && operands_wf(final(operands)@),
            Err(err) => reduce_once(old(operands)@, e) == Err::<Seq<AstNode>, ParseError>(err),
        },
{
    match e {
        OpEntry::Bin(op) => {
            let right = match operands.pop() {
                Some(x) => x,
                None => {
                    return Err(ParseError::MissingRightOperand);
                },
            };
            let left = match operands.pop() {
                Some(x) => x,
                None => {
                    return Err(ParseError::MissingLeftOperand);
                },
            };
            proof {
                assert(old(operands)@.take(old(operands)@.len() - 2) =~= operands@);
                assert(ast_wf(old(operands)@[old(operands)@.len() - 2]));
                assert(ast_wf(old(operands)@[old(operands)@.len() - 1]));
            }
            operands.push(AstNode::BinaryOp(Box::new(left), op, Box::new(right)));
            Ok(())
        },
        OpEntry::Neg => {
            let operand = match operands.pop() {
                Some(x) => x,
                None => {
                    return Err(ParseError::MissingRightOperand);
                },
            };
            proof {
                assert(old(operands)@.take(old(operands)@.len() - 1) =~= operands@);
                assert(ast_wf(old(operands)@[old(operands)@.len() - 1]));
            }
            operands.push(AstNode::UnaryOp(UnaryOp::Negative, Box::new(operand)));
            Ok(())
        },
        OpEntry::Open => Err(ParseError::UnmatchedParenthesis),
    }
}

fn reduce_while_exec(operands: &mut Vec<AstNode>, ops: &mut Vec<OpEntry>, prec: u8) -> (r: Result<
    (),
    ParseError,
>)
    requires
        operands_wf(old(operands)@),
    ensures
        match r {
            Ok(()) => reduce_while(old(operands)@, old(ops)@, prec as int) == Ok::<
                (Seq<AstNode>, Seq<OpEntry>),
                ParseError,
            >((final(operands)@, final(ops)@)) && operands_wf(final(operands)@),
            Err(err) => reduce_while(old(operands)@, old(ops)@, prec as int) == Err::<
                (Seq<AstNode>, Seq<OpEntry>),
                ParseError,
            >(err),
        },
{
    loop
        invariant
            operands_wf(operands@),
            reduce_while(operands@, ops@, prec as int) == reduce_while(
                old(operands)@,
                old(ops)@,
                prec as int,
            ),
        decreases ops@.len(),
    {
        if ops.len() == 0 {
            return Ok(());
        }
        let top = ops[ops.len() - 1];
        match top {
            OpEntry::Open => {
                return Ok(());
            },
            _ => {},
        }
        let top_prec: u8 = match top {
            OpEntry::Bin(Operator::Add) | OpEntry::Bin(Operator::Subtract) => 0,
            OpEntry::Bin(Operator::Multiply) | OpEntry::Bin(Operator::Divide) => 1,
            OpEntry::Neg => 2,
            OpEntry::Open => 3,
        };
        if top_prec >= prec {
            let ghost prev_ops = ops@;
            ops.pop();
            proof {
                assert(ops@ =~= prev_ops.drop_last());
            }
            match reduce_once_exec(operands, top) {
                Ok(()) => {},
                Err(err) => {
                    return Err(err);
                },
            }
        } else {
            return Ok(());
        }
    }
}

fn reduce_to_open_exec(operands: &mut Vec<AstNode>, ops: &mut Vec<OpEntry>) -> (r: Result<
    (),
    ParseError,
>)
    requires
        operands_wf(old(operands)@),
    ensures
        match r {
            Ok(()) => reduce_to_open(old(operands)@, old(ops)@) == Ok::<
                (Seq<AstNode>, Seq<OpEntry>),
                ParseError,
            >((final(operands)@, final(ops)@)) && operands_wf(final(operands)@),
            Err(err) => reduce_to_open(old(operands)@, old(ops)@) == Err::<
                (Seq<AstNode>, Seq<OpEntry>),
                ParseError,
            >(err),
        },
{
    loop
        invariant
            operands_wf(operands@),
            reduce_to_open(operands@, ops@) == reduce_to_open(old(operands)@, old(ops)@),
        decreases ops@.len(),
    {
        let top = match ops.pop() {
            Some(e) => e,
            None => {
                return Err(ParseError::UnmatchedParenthesis);
            },
        };
        match top {
            OpEntry::Open => {
                return Ok(());
            },
            _ => {},
        }
        match reduce_once_exec(operands, top) {
            Ok(()) => {},
            Err(err) => {
                return Err(err);
            },
        }
    }
}

fn flush_ops_exec(operands: &mut Vec<AstNode>, ops: &mut Vec<OpEntry>) -> (r: Result<
    (),
    ParseError,
>)
    requires
        operands_wf(old(operands)@),
    ensures
        match r {
            Ok(()) => flush_ops(old(operands)@, old(ops)@) == Ok::<Seq<AstNode>, ParseError>(
                final(operands)@,
            ) && operands_wf(final(operands)@),
            Err(err) => flush_ops(old(operands)@, old(ops)@) == Err::<Seq<AstNode>, ParseError>(
                err,
            ),
        },
{
    loop
        invariant
            operands_wf(operands@),
            flush_ops(operands@, ops@) == flush_ops(old(operands)@, old(ops)@),
        decreases ops@.len(),
    {
        let top = match ops.pop() {
            Some(e) => e,
            None => {
                return Ok(());
            },
        };
        match top {
            OpEntry::Open => {
                return Err(ParseError::UnmatchedParenthesis);
            },
            _ => {},
        }
        match reduce_once_exec(operands, top) {
            Ok(()) => {},
            Err(err) => {
                return Err(err);
            },
        }
    }
}

impl Parser {
    pub fn new(tokens: Vec<Token>) -> (r: Self)
        ensures
            r@ == tokens@,
    {
        Parser { tokens }
    }

    /// Builds the tree of the whole token sequence, or reports the first
    /// structural fault; see `spec_parse`.
    pub fn parse(&mut self) -> (r: Result<AstNode, ParseError>)
        requires
            tokens_wf(old(self)@),
        ensures
            final(self)@ == old(self)@,
            r == spec_parse(old(self)@),
            r matches Ok(a) ==> ast_wf(a),
    {
        let ghost toks = self@;
        let mut operands: Vec<AstNode> = Vec::new();
        let mut ops: Vec<OpEntry> = Vec::new();
        let mut prev_operand = false;
        let n = self.tokens.len();
        let mut i: usize = 0;
        while i < n
            invariant
                toks == old(self)@,
                self@ == toks,
                n == toks.len(),
                i <= n,
                tokens_wf(toks),
                operands_wf(operands@),
                parse_from(
                    toks,
                    i as int,
                    ParseState { operands: operands@, ops: ops@, prev_operand },
                ) == spec_parse(toks),
            decreases n - i,
        {
            let ghost st = ParseState { operands: operands@, ops: ops@, prev_operand };
            let t = self.tokens[i];
            assert(t == toks[i as int]);
            match t {
                Token::Number(v) => {
                    if prev_operand {
                        match reduce_while_exec(&mut operands, &mut ops, 1) {
                            Ok(()) => {},
                            Err(e) => {
                                return Err(e);
                            },
                        }
                        ops.push(OpEntry::Bin(Operator::Multiply));
                    }
                    proof {
                        assert(token_wf(toks[i as int]));
                    }
                    operands.push(AstNode::Number(v));
                    prev_operand = true;
                },
                Token::LParen => {
                    if prev_operand {
                        match reduce_while_exec(&mut operands, &mut ops, 1) {
                            Ok(()) => {},
                            Err(e) => {
                                return Err(e);
                            },
                        }
                        ops.push(OpEntry::Bin(Operator::Multiply));
                    }
                    ops.push(OpEntry::Open);
                    prev_operand = false;
                },
                Token::RParen => {
                    match reduce_to_open_exec(&mut operands, &mut ops) {
                        Ok(()) => {},
                        Err(e) => {
                            return Err(e);
                        },
                    }
                    prev_operand = true;
                },
                _ => {
                    if !prev_operand && matches!(t, Token::Minus) {
                        ops.push(OpEntry::Neg);
                        prev_operand = false;
                    } else {
                        let prec = t.precedence();
                        match reduce_while_exec(&mut operands, &mut ops, prec) {
                            Ok(()) => {},
                            Err(e) => {
                                return Err(e);
                            },
                        }
                        ops.push(OpEntry::Bin(t.operator()));
                        prev_operand = false;
                    }
                },
            }
            proof {
                let new_st = ParseState { operands: operands@, ops: ops@, prev_operand };
                assert(parse_step(st, toks[i as int]) == Ok::<ParseState, ParseError>(new_st));
            }
            i = i + 1;
        }
        match flush_ops_exec(&mut operands, &mut ops) {
            Ok(()) => {},
            Err(e) => {
                return Err(e);
            },
        }
        match operands.pop() {
            Some(a) => Ok(a),
            None => Err(ParseError::EmptyExpression),
        }
    }
}

/// Where a run of tokens is the same from `i` on as another from `j` on, the
/// parse from those points agrees, whatever state was reached.
proof fn lemma_parse_from_suffix(t1: Seq<Token>, i: int, t2: Seq<Token>, j: int, st: ParseState)
    requires
        0 <= i <= t1.len(),
        0 <= j <= t2.len(),
        t1.len() - i == t2.len() - j,
        forall|k: int| i <= k < t1.len() ==> #[trigger] t1[k] == t2[k - i + j],
    ensures
        parse_from(t1, i, st) == parse_from(t2, j, st),
    decreases t1.len() - i,
{
    if i < t1.len() {
        assert(t1[i] == t2[j]);
        match parse_step(st, t1[i]) {
            Err(_) => {},
            Ok(st2) => {
                lemma_parse_from_suffix(t1, i + 1, t2, j + 1, st2);
            },
        }
    }
}

/// A number or an opening parenthesis right after a completed operand parses
/// exactly as if an explicit `*` stood before it.
proof fn lemma_step_times(t1: Seq<Token>, i: int, st: ParseState)
    requires
        0 <= i < t1.len(),
        (t1[i] matches Token::Number(_)) || t1[i] == Token::LParen,
        st.prev_operand,
    ensures
        parse_from(t1.insert(i, Token::Times), i, st) == parse_from(t1, i, st),
{
    let t2 = t1.insert(i, Token::Times);
    t1.insert_ensures(i, Token::Times);
    assert(t2[i] == Token::Times);
    assert(t2[i + 1] == t1[i]);
    match reduce_while(st.operands, st.ops, 1) {
        Err(e) => {
            assert(parse_from(t2, i, st) == Err::<AstNode, ParseError>(e));
            assert(parse_from(t1, i, st) == Err::<AstNode, ParseError>(e));
        },
        Ok((operands, ops)) => {
            let st2 = ParseState {
                operands,
                ops: ops.push(OpEntry::Bin(Operator::Multiply)),
                prev_operand: false,
            };
            assert(parse_step(st, Token::Times) == Ok::<ParseState, ParseError>(st2));
            match t1[i] {
                Token::Number(v) => {
                    let st3 = ParseState {
                        operands: operands.push(AstNode::Number(v)),
                        ops: ops.push(OpEntry::Bin(Operator::Multiply)),
                        prev_operand: true,
                    };
                    assert(parse_step(st2, t1[i]) == Ok::<ParseState, ParseError>(st3));
                    assert(parse_step(st, t1[i]) == Ok::<ParseState, ParseError>(st3));
                    assert(parse_from(t2, i, st) == parse_from(t2, i + 1, st2));
                    assert(parse_from(t2, i + 1, st2) == parse_from(t2, i + 2, st3));
                    assert(parse_from(t1, i, st) == parse_from(t1, i + 1, st3));
                    assert forall|k: int| i + 2 <= k < t2.len() implies #[trigger] t2[k] == t1[
                        k - (i + 2) + (i + 1)
                    ] by {
                        assert(t2[(k - 1) + 1] == t1[k - 1]);
                    }
                    lemma_parse_from_suffix(t2, i + 2, t1, i + 1, st3);
                },
                _ => {
                    let st3 = ParseState {
                        operands,
                        ops: ops.push(OpEntry::Bin(Operator::Multiply)).push(OpEntry::Open),
                        prev_operand: false,
                    };
                    assert(parse_step(st2, t1[i]) == Ok::<ParseState, ParseError>(st3));
                    assert(parse_step(st, t1[i]) == Ok::<ParseState, ParseError>(st3));
                    assert(parse_from(t2, i, st) == parse_from(t2, i + 1, st2));
                    assert(parse_from(t2, i + 1, st2) == parse_from(t2, i + 2, st3));
                    assert(parse_from(t1, i, st) == parse_from(t1, i + 1, st3));
                    assert forall|k: int| i + 2 <= k < t2.len() implies #[trigger] t2[k] == t1[
                        k - (i + 2) + (i + 1)
                    ] by {
                        assert(t2[(k - 1) + 1] == t1[k - 1]);
                    }
                    lemma_parse_from_suffix(t2, i + 2, t1, i + 1, st3);
                },
            }
        },
    }
}

proof fn lemma_implicit_times_prefix(t1: Seq<Token>, i: int, j: int, st: ParseState)
    requires
        0 < i < t1.len(),
        0 <= j < i,
        (t1[i - 1] matches Token::Number(_)) || t1[i - 1] == Token::RParen,
        (t1[i] matches Token::Number(_)) || t1[i] == Token::LParen,
    ensures
        parse_from(t1.insert(i, Token::Times), j, st) == parse_from(t1, j, st),
    decreases i - j,
{
    let t2 = t1.insert(i, Token::Times);
    t1.insert_ensures(i, Token::Times);
    assert(t2[j] == t1[j]);
    match parse_step(st, t1[j]) {
        Err(_) => {},
        Ok(st2) => {
            if j + 1 == i {
                assert(st2.prev_operand);
                lemma_step_times(t1, i, st2);
            } else {
                lemma_implicit_times_prefix(t1, i, j + 1, st2);
            }
        },
    }
}

/// Implicit multiplication binds exactly as explicit `*`: wherever a number
/// or an opening parenthesis directly follows a number or a closing
/// parenthesis, inserting an explicit `Times` token there leaves the parse
/// unchanged.
pub proof fn lemma_implicit_multiplication(tokens: Seq<Token>, i: int)
    requires
        0 < i < tokens.len(),
        (tokens[i - 1] matches Token::Number(_)) || tokens[i - 1] == Token::RParen,
        (tokens[i] matches Token::Number(_)) || tokens[i] == Token::LParen,
    ensures
        spec_parse(tokens.insert(i, Token::Times)) == spec_parse(tokens),
{
    lemma_implicit_times_prefix(tokens, i, 0, initial_state());
}

proof fn lemma_reduce_while_bottom_open(
    operands: Seq<AstNode>,
    ops: Seq<OpEntry>,
    prec: int,
    o2: Seq<AstNode>,
    p2: Seq<OpEntry>,
)
    requires
        reduce_while(operands, ops, prec) == Ok::<(Seq<AstNode>, Seq<OpEntry>), ParseError>(
            (o2, p2),
        ),
    ensures
        reduce_while(operands, seq![OpEntry::Open] + ops, prec) == Ok::<
            (Seq<AstNode>, Seq<OpEntry>),
            ParseError,
        >((o2, seq![OpEntry::Open] + p2)),
    decreases ops.len(),
{
    let wrapped = seq![OpEntry::Open] + ops;
    if ops.len() == 0 {
        assert(wrapped =~= seq![OpEntry::Open]);
        assert(wrapped.last() == OpEntry::Open);
        assert(seq![OpEntry::Open] + p2 =~= wrapped);
    } else {
        assert(wrapped.last() == ops.last());
        assert(wrapped.drop_last() =~= seq![OpEntry::Open] + ops.drop_last());
        let top = ops.last();
        if top != OpEntry::Open && entry_prec(top) >= prec {
            match reduce_once(operands, top) {
                Err(_) => {},
                Ok(reduced) => {
                    lemma_reduce_while_bottom_open(reduced, ops.drop_last(), prec, o2, p2);
                },
            }
        }
    }
}

proof fn lemma_reduce_to_open_bottom_open(
    operands: Seq<AstNode>,
    ops: Seq<OpEntry>,
    o2: Seq<AstNode>,
    p2: Seq<OpEntry>,
)
    requires
        reduce_to_open(operands, ops) == Ok::<(Seq<AstNode>, Seq<OpEntry>), ParseError>((o2, p2)),
    ensures
        reduce_to_open(operands, seq![OpEntry::Open] + ops) == Ok::<
            (Seq<AstNode>, Seq<OpEntry>),
            ParseError,
        >((o2, seq![OpEntry::Open] + p2)),
    decreases ops.len(),
{
    let wrapped = seq![OpEntry::Open] + ops;
    assert(ops.len() > 0);
    assert(wrapped.last() == ops.last());
    assert(wrapped.drop_last() =~= seq![OpEntry::Open] + ops.drop_last());
    let top = ops.last();
    if top == OpEntry::Open {
        assert(seq![OpEntry::Open] + p2 =~= wrapped.drop_last());
    } else {
        match reduce_once(operands, top) {
            Err(_) => {},
            Ok(reduced) => {
                lemma_reduce_to_open_bottom_open(reduced, ops.drop_last(), o2, p2);
            },
        }
    }
}

proof fn lemma_flush_as_reduce_to_open(operands: Seq<AstNode>, ops: Seq<OpEntry>, o2: Seq<AstNode>)
    requires
        flush_ops(operands, ops) == Ok::<Seq<AstNode>, ParseError>(o2),
    ensures
        reduce_to_open(operands, seq![OpEntry::Open] + ops) == Ok::<
            (Seq<AstNode>, Seq<OpEntry>),
            ParseError,
        >((o2, Seq::empty())),
    decreases ops.len(),
{
    let wrapped = seq![OpEntry::Open] + ops;
    if ops.len() == 0 {
        assert(wrapped =~= seq![OpEntry::Open]);
        assert(wrapped.last() == OpEntry::Open);
        assert(wrapped.drop_last() =~= Seq::<OpEntry>::empty());
    } else {
        assert(wrapped.last() == ops.last());
        assert(wrapped.drop_last() =~= seq![OpEntry::Open] + ops.drop_last());
        let top = ops.last();
        match reduce_once(operands, top) {
            Err(_) => {},
            Ok(reduced) => {
                lemma_flush_as_reduce_to_open(reduced, ops.drop_last(), o2);
            },
        }
    }
}

/// Lifts one step: the wrapped run, with the wrapper's `Open` at the bottom
/// of its operator stack, mirrors the plain run step by step.
proof fn lemma_wrap_step(st: ParseState, t: Token, stn: ParseState)
    requires
        parse_step(st, t) == Ok::<ParseState, ParseError>(stn),
    ensures
        parse_step(
            ParseState {
                operands: st.operands,
                ops: seq![OpEntry::Open] + st.ops,
                prev_operand: st.prev_operand,
            },
            t,
        ) == Ok::<ParseState, ParseError>(
            ParseState {
                operands: stn.operands,
                ops: seq![OpEntry::Open] + stn.ops,
                prev_operand: stn.prev_operand,
            },
        ),
{
    match t {
        Token::Number(_) | Token::LParen => {
            if st.prev_operand {
                match reduce_while(st.operands, st.ops, 1) {
                    Err(_) => {},
                    Ok((o2, p2)) => {
                        lemma_reduce_while_bottom_open(st.operands, st.ops, 1, o2, p2);
                        assert((seq![OpEntry::Open] + p2).push(OpEntry::Bin(Operator::Multiply))
                            =~= seq![OpEntry::Open] + p2.push(OpEntry::Bin(Operator::Multiply)));
                        assert((seq![OpEntry::Open] + p2.push(OpEntry::Bin(Operator::Multiply))).push(
                            OpEntry::Open,
                        ) =~= seq![OpEntry::Open] + p2.push(OpEntry::Bin(Operator::Multiply)).push(
                            OpEntry::Open,
                        ));
                    },
                }
            } else {
                assert((seq![OpEntry::Open] + st.ops).push(OpEntry::Open) =~= seq![OpEntry::Open]
                    + st.ops.push(OpEntry::Open));
            }
        },
        Token::RParen => {
            match reduce_to_open(st.operands, st.ops) {
                Err(_) => {},
                Ok((o2, p2)) => {
                    lemma_reduce_to_open_bottom_open(st.operands, st.ops, o2, p2);
                },
            }
        },
        _ => {
            if t == Token::Minus && !st.prev_operand {
                assert((seq![OpEntry::Open] + st.ops).push(OpEntry::Neg) =~= seq![OpEntry::Open]
                    + st.ops.push(OpEntry::Neg));
            } else {
                match reduce_while(st.operands, st.ops, spec_precedence(t)) {
                    Err(_) => {},
                    Ok((o2, p2)) => {
                        lemma_reduce_while_bottom_open(
                            st.operands,
                            st.ops,
                            spec_precedence(t),
                            o2,
                            p2,
                        );
                        assert((seq![OpEntry::Open] + p2).push(OpEntry::Bin(spec_operator(t)))
                            =~= seq![OpEntry::Open] + p2.push(OpEntry::Bin(spec_operator(t))));
                    },
                }
            }
        },
    }
}

proof fn lemma_wrap_from(t1: Seq<Token>, i: int, st: ParseState, t2: Seq<Token>, a: AstNode)
    requires
        0 <= i <= t1.len(),
        t2 == seq![Token::LParen] + t1 + seq![Token::RParen],
        parse_from(t1, i, st) == Ok::<AstNode, ParseError>(a),
    ensures
        parse_from(
            t2,
            i + 1,
            ParseState {
                operands: st.operands,
                ops: seq![OpEntry::Open] + st.ops,
                prev_operand: st.prev_operand,
            },
        ) == Ok::<AstNode, ParseError>(a),
    decreases t1.len() - i,
{
    let wrapped_st = ParseState {
        operands: st.operands,
        ops: seq![OpEntry::Open] + st.ops,
        prev_operand: st.prev_operand,
    };
    assert(t2.len() == t1.len() + 2);
    if i == t1.len() {
        assert(t2[i + 1] == Token::RParen);
        match flush_ops(st.operands, st.ops) {
            Err(_) => {},
            Ok(o2) => {
                assert(o2.len() > 0 && a == o2.last());
                lemma_flush_as_reduce_to_open(st.operands, st.ops, o2);
                let st2 = ParseState { operands: o2, ops: Seq::empty(), prev_operand: true };
                assert(parse_step(wrapped_st, Token::RParen) == Ok::<ParseState, ParseError>(st2));
                assert(parse_from(t2, i + 2, st2) == Ok::<AstNode, ParseError>(a));
            },
        }
    } else {
        assert(t2[i + 1] == t1[i]);
        match parse_step(st, t1[i]) {
            Err(_) => {},
            Ok(stn) => {
                lemma_wrap_step(st, t1[i], stn);
                lemma_wrap_from(t1, i + 1, stn, t2, a);
            },
        }
    }
}

/// Parenthesis nesting of arbitrary depth reduces correctly: wrapping a
/// well-formed expression in one more pair of parentheses leaves the parse
/// unchanged, at any depth, since the wrapped expression may itself be
/// parenthesized.
pub proof fn lemma_paren_wrapping(tokens: Seq<Token>, a: AstNode)
    requires
        spec_parse(tokens) == Ok::<AstNode, ParseError>(a),
    ensures
        spec_parse(seq![Token::LParen] + tokens + seq![Token::RParen]) == Ok::<
            AstNode,
            ParseError,
        >(a),
{
    let t2 = seq![Token::LParen] + tokens + seq![Token::RParen];
    assert(t2[0] == Token::LParen);
    let st1 = ParseState { operands: Seq::empty(), ops: seq![OpEntry::Open], prev_operand: false };
    assert(parse_step(initial_state(), Token::LParen) == Ok::<ParseState, ParseError>(st1));
    assert(seq![OpEntry::Open] =~= seq![OpEntry::Open] + initial_state().ops);
    lemma_wrap_from(tokens, 0, initial_state(), t2, a);
}

/// The token an operator is written as.
pub open spec fn op_token(op: Operator) -> Token {
    match op {
        Operator::Add => Token::Plus,
        Operator::Subtract => Token::Minus,
        Operator::Multiply => Token::Times,
        Operator::Divide => Token::Divide,
    }
}

/// A flush that succeeds is one reduction loop at the lowest precedence: it
/// consumes the whole operator stack.
proof fn lemma_flush_as_reduce_while(operands: Seq<AstNode>, ops: Seq<OpEntry>, o2: Seq<AstNode>)
    requires
        flush_ops(operands, ops) == Ok::<Seq<AstNode>, ParseError>(o2),
    ensures
        reduce_while(operands, ops, 0) == Ok::<(Seq<AstNode>, Seq<OpEntry>), ParseError>(
            (o2, Seq::empty()),
        ),
    decreases ops.len(),
{
    if ops.len() == 0 {
        assert(ops =~= Seq::<OpEntry>::empty());
    } else {
        let top = ops.last();
        match reduce_once(operands, top) {
            Err(_) => {},
            Ok(reduced) => {
                lemma_flush_as_reduce_while(reduced, ops.drop_last(), o2);
            },
        }
    }
}

proof fn lemma_additive_append_from(
    ts: Seq<Token>,
    i: int,
    st: ParseState,
    op: Operator,
    n: Rational,
    a: AstNode,
)
    requires
        0 <= i <= ts.len(),
        parse_from(ts, i, st) == Ok::<AstNode, ParseError>(a),
        op == Operator::Add || op == Operator::Subtract,
        i == ts.len() ==> st.prev_operand,
        i < ts.len() ==> ((ts.last() matches Token::Number(_)) || ts.last() == Token::RParen),
    ensures
        parse_from(ts + seq![op_token(op), Token::Number(n)], i, st) == Ok::<AstNode, ParseError>(
            AstNode::BinaryOp(Box::new(a), op, Box::new(AstNode::Number(n))),
        ),
    decreases ts.len() - i,
{
    let t2 = ts + seq![op_token(op), Token::Number(n)];
    if i == ts.len() {
        match flush_ops(st.operands, st.ops) {
            Err(_) => {},
            Ok(o) => {
                assert(o.len() > 0 && a == o.last());
                lemma_flush_as_reduce_while(st.operands, st.ops, o);
                assert(t2[i] == op_token(op));
                assert(t2[i + 1] == Token::Number(n));
                let st2 = ParseState {
                    operands: o,
                    ops: Seq::empty().push(OpEntry::Bin(op)),
                    prev_operand: false,
                };
                assert(parse_step(st, op_token(op)) == Ok::<ParseState, ParseError>(st2));
                let st3 = ParseState {
                    operands: o.push(AstNode::Number(n)),
                    ops: Seq::empty().push(OpEntry::Bin(op)),
                    prev_operand: true,
                };
                assert(parse_step(st2, Token::Number(n)) == Ok::<ParseState, ParseError>(st3));
                assert(parse_from(t2, i, st) == parse_from(t2, i + 1, st2));
                assert(parse_from(t2, i + 1, st2) == parse_from(t2, i + 2, st3));
                let combined = AstNode::BinaryOp(Box::new(a), op, Box::new(AstNode::Number(n)));
                assert(st3.operands[st3.operands.len() - 2] == a);
                assert(st3.operands.take(st3.operands.len() - 2) =~= o.take(o.len() - 1));
                assert(reduce_once(st3.operands, OpEntry::Bin(op)) == Ok::<
                    Seq<AstNode>,
                    ParseError,
                >(o.take(o.len() - 1).push(combined)));
                assert(st3.ops.drop_last() =~= Seq::<OpEntry>::empty());
                let res = o.take(o.len() - 1).push(combined);
                assert(flush_ops(res, Seq::<OpEntry>::empty()) == Ok::<Seq<AstNode>, ParseError>(
                    res,
                ));
                assert(flush_ops(st3.operands, st3.ops) == Ok::<Seq<AstNode>, ParseError>(res));
                assert(res.len() > 0 && res.last() == combined);
                assert(parse_from(t2, i + 2, st3) == Ok::<AstNode, ParseError>(combined));
            },
        }
    } else {
        assert(t2[i] == ts[i]);
        match parse_step(st, ts[i]) {
            Err(_) => {},
            Ok(stn) => {
                if i + 1 == ts.len() {
                    assert(stn.prev_operand);
                }
                lemma_additive_append_from(ts, i + 1, stn, op, n, a);
            },
        }
    }
}

/// `+` and `-` extend a parse left-associatively at the lowest tier: after
/// any expression that parses, an additive operator takes the whole
/// expression so far as its left operand.
pub proof fn lemma_additive_extends_left(tokens: Seq<Token>, a: AstNode, op: Operator, n: Rational)
    requires
        spec_parse(tokens) == Ok::<AstNode, ParseError>(a),
        op == Operator::Add || op == Operator::Subtract,
        tokens.len() > 0,
        (tokens.last() matches Token::Number(_)) || tokens.last() == Token::RParen,
    ensures
        spec_parse(tokens + seq![op_token(op), Token::Number(n)]) == Ok::<AstNode, ParseError>(
            AstNode::BinaryOp(Box::new(a), op, Box::new(AstNode::Number(n))),
        ),
{
    lemma_additive_append_from(tokens, 0, initial_state(), op, n, a);
}

proof fn lemma_tighter_append_from(
    ts: Seq<Token>,
    i: int,
    st: ParseState,
    addop: Operator,
    y: Rational,
    mulop: Operator,
    z: Rational,
    a: AstNode,
)
    requires
        0 <= i <= ts.len(),
        parse_from(ts, i, st) == Ok::<AstNode, ParseError>(a),
        addop == Operator::Add || addop == Operator::Subtract,
        mulop == Operator::Multiply || mulop == Operator::Divide,
        i == ts.len() ==> st.prev_operand,
        i < ts.len() ==> ((ts.last() matches Token::Number(_)) || ts.last() == Token::RParen),
    ensures
        parse_from(
            ts + seq![op_token(addop), Token::Number(y), op_token(mulop), Token::Number(z)],
            i,
            st,
        ) == Ok::<AstNode, ParseError>(
            AstNode::BinaryOp(
                Box::new(a),
                addop,
                Box::new(
                    AstNode::BinaryOp(
                        Box::new(AstNode::Number(y)),
                        mulop,
                        Box::new(AstNode::Number(z)),
                    ),
                ),
            ),
        ),
    decreases ts.len() - i,
{
    let t2 = ts + seq![op_token(addop), Token::Number(y), op_token(mulop), Token::Number(z)];
    if i == ts.len() {
        match flush_ops(st.operands, st.ops) {
            Err(_) => {},
            Ok(o) => {
                assert(o.len() > 0 && a == o.last());
                lemma_flush_as_reduce_while(st.operands, st.ops, o);
                assert(t2[i] == op_token(addop));
                assert(t2[i + 1] == Token::Number(y));
                assert(t2[i + 2] == op_token(mulop));
                assert(t2[i + 3] == Token::Number(z));
                let low = Seq::empty().push(OpEntry::Bin(addop));
                let st2 = ParseState { operands: o, ops: low, prev_operand: false };
                assert(parse_step(st, op_token(addop)) == Ok::<ParseState, ParseError>(st2));
                let st3 = ParseState {
                    operands: o.push(AstNode::Number(y)),
                    ops: low,
                    prev_operand: true,
                };
                assert(parse_step(st2, Token::Number(y)) == Ok::<ParseState, ParseError>(st3));
                let both = low.push(OpEntry::Bin(mulop));
                let st4 = ParseState {
                    operands: o.push(AstNode::Number(y)),
                    ops: both,
                    prev_operand: false,
                };
                assert(reduce_while(st3.operands, low, 1) == Ok::<
                    (Seq<AstNode>, Seq<OpEntry>),
                    ParseError,
                >((st3.operands, low)));
                assert(parse_step(st3, op_token(mulop)) == Ok::<ParseState, ParseError>(st4));
                let st5 = ParseState {
                    operands: o.push(AstNode::Number(y)).push(AstNode::Number(z)),
                    ops: both,
                    prev_operand: true,
                };
                assert(parse_step(st4, Token::Number(z)) == Ok::<ParseState, ParseError>(st5));
                assert(parse_from(t2, i, st) == parse_from(t2, i + 1, st2));
                assert(parse_from(t2, i + 1, st2) == parse_from(t2, i + 2, st3));
                assert(parse_from(t2, i + 2, st3) == parse_from(t2, i + 3, st4));
                assert(parse_from(t2, i + 3, st4) == parse_from(t2, i + 4, st5));
                let inner = AstNode::BinaryOp(
                    Box::new(AstNode::Number(y)),
                    mulop,
                    Box::new(AstNode::Number(z)),
                );
                let combined = AstNode::BinaryOp(Box::new(a), addop, Box::new(inner));
                assert(st5.operands[st5.operands.len() - 2] == AstNode::Number(y));
                assert(st5.operands.take(st5.operands.len() - 2) =~= o);
                assert(reduce_once(st5.operands, OpEntry::Bin(mulop)) == Ok::<
                    Seq<AstNode>,
                    ParseError,
                >(o.push(inner)));
                assert(both.last() == OpEntry::Bin(mulop));
                assert(both.drop_last() =~= low);
                assert(o.push(inner)[o.push(inner).len() - 2] == a);
                assert(o.push(inner).take(o.push(inner).len() - 2) =~= o.take(o.len() - 1));
                let res = o.take(o.len() - 1).push(combined);
                assert(reduce_once(o.push(inner), OpEntry::Bin(addop)) == Ok::<
                    Seq<AstNode>,
                    ParseError,
                >(res));
                assert(low.last() == OpEntry::Bin(addop));
                assert(low.drop_last() =~= Seq::<OpEntry>::empty());
                assert(flush_ops(res, Seq::<OpEntry>::empty()) == Ok::<Seq<AstNode>, ParseError>(
                    res,
                ));
                assert(flush_ops(o.push(inner), low) == Ok::<Seq<AstNode>, ParseError>(res));
                assert(flush_ops(st5.operands, st5.ops) == Ok::<Seq<AstNode>, ParseError>(res));
                assert(res.len() > 0 && res.last() == combined);
                assert(parse_from(t2, i + 4, st5) == Ok::<AstNode, ParseError>(combined));
            },
        }
    } else {
        assert(t2[i] == ts[i]);
        match parse_step(st, ts[i]) {
            Err(_) => {},
            Ok(stn) => {
                if i + 1 == ts.len() {
                    assert(stn.prev_operand);
                }
                lemma_tighter_append_from(ts, i + 1, stn, addop, y, mulop, z, a);
            },
        }
    }
}

/// `*` and `/` bind tighter than `+` and `-`: after any expression that
/// parses, the run `.. addop y mulop z` groups as `.. addop (y mulop z)`,
/// with the multiplicative pair forming the right operand.
pub proof fn lemma_multiplicative_binds_tighter(
    tokens: Seq<Token>,
    a: AstNode,
    addop: Operator,
    y: Rational,
    mulop: Operator,
    z: Rational,
)
    requires
        spec_parse(tokens) == Ok::<AstNode, ParseError>(a),
        addop == Operator::Add || addop == Operator::Subtract,
        mulop == Operator::Multiply || mulop == Operator::Divide,
        tokens.len() > 0,
        (tokens.last() matches Token::Number(_)) || tokens.last() == Token::RParen,
    ensures
        spec_parse(
            tokens + seq![op_token(addop), Token::Number(y), op_token(mulop), Token::Number(z)],
        ) == Ok::<AstNode, ParseError>(
            AstNode::BinaryOp(
                Box::new(a),
                addop,
                Box::new(
                    AstNode::BinaryOp(
                        Box::new(AstNode::Number(y)),
                        mulop,
                        Box::new(AstNode::Number(z)),
                    ),
                ),
            ),
        ),
{
    lemma_tighter_append_from(tokens, 0, initial_state(), addop, y, mulop, z, a);
}

} // verus!
