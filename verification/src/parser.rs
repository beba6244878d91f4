use vstd::prelude::*;

use crate::error::CalcError;
use crate::tokenizer::{OperatorKind, Token};

verus! {

/// A leaf of the expression tree: a single 64-bit value.
pub struct IntegerExpression {
    pub value: i64,
}

/// An inner node of the expression tree: an operator applied to two
/// exclusively owned children.
pub struct ArithmeticExpression {
    pub operator: OperatorKind,
    pub left: Box<Expression>,
    pub right: Box<Expression>,
}

/// A binary expression tree, built bottom-up from a postfix token sequence
/// and consumed once by the evaluator.
pub enum Expression {
    Integer(IntegerExpression),
    Arithmetic(ArithmeticExpression),
}

/// The tree built from the postfix tokens `tokens[i..]`, given the working
/// stack so far: integers push leaves, an operator pops its right operand
/// first and then its left one, and parentheses (which the reordering never
/// leaves behind) are tolerated as no-ops. At the end, the top of the stack
/// is the result; an empty stack is an error. Nodes below the top, if any,
/// are deliberately left behind and ignored: the top of the stack wins.
pub open spec fn parse_from(tokens: Seq<Token>, i: int, stack: Seq<Expression>) -> Result<
    Expression,
    CalcError,
>
    decreases tokens.len() - i,
{
    if i < 0 || i >= tokens.len() {
        if stack.len() == 0 {
            Err(CalcError::EmptyExpression)
        } else {
            Ok(stack.last())
        }
    } else {
        match tokens[i] {
            Token::Integer(value) => parse_from(
                tokens,
                i + 1,
                stack.push(Expression::Integer(IntegerExpression { value })),
            ),
            Token::LParen => parse_from(tokens, i + 1, stack),
            Token::RParen => parse_from(tokens, i + 1, stack),
            Token::Operator(op) => {
                if stack.len() < 2 {
                    Err(CalcError::MissingOperand)
                } else {
                    parse_from(
                        tokens,
                        i + 1,
                        stack.drop_last().drop_last().push(
                            Expression::Arithmetic(
                                ArithmeticExpression {
                                    operator: op.kind,
                                    left: Box::new(stack[stack.len() - 2]),
                                    right: Box::new(stack.last()),
                                },
                            ),
                        ),
                    )
                }
            },
        }
    }
}

/// What [`parse`] returns for a whole postfix token sequence.
pub open spec fn parse_spec(tokens: Seq<Token>) -> Result<Expression, CalcError> {
    parse_from(tokens, 0, Seq::empty())
}

/// Builds the expression tree for a postfix token sequence with a working
/// stack; the result is exactly what the parsing model says, error for
/// error.
pub fn parse(tokens: Vec<Token>) -> (res: Result<Expression, CalcError>)
    ensures
        match res {
            Ok(e) => parse_spec(tokens@) == Ok::<Expression, CalcError>(e),
            Err(e) => parse_spec(tokens@) == Err::<Expression, CalcError>(e),
        },
{
    let ghost ts = tokens@;
    let n = tokens.len();
    let mut stack: Vec<Expression> = Vec::new();
    let mut i: usize = 0;
    while i < n
        invariant
            ts == tokens@,
            n == ts.len(),
            i <= n,
            parse_spec(ts) == parse_from(ts, i as int, stack@),
        decreases n - i,
    {
        let token = tokens[i];
        match token {
            Token::Integer(value) => {
                stack.push(Expression::Integer(IntegerExpression { value }));
            },
            Token::LParen => {},
            Token::RParen => {},
            Token::Operator(op) => {
                let right = match stack.pop() {
                    Some(item) => item,
                    None => {
                        return Err(CalcError::MissingOperand);
                    },
                };
                let left = match stack.pop() {
                    Some(item) => item,
                    None => {
                        return Err(CalcError::MissingOperand);
                    },
                };
                stack.push(
                    Expression::Arithmetic(
                        ArithmeticExpression {
                            operator: op.kind,
                            left: Box::new(left),
                            right: Box::new(right),
                        },
                    ),
                );
            },
        }
        i = i + 1;
    }
    if stack.len() == 0 {
        return Err(CalcError::EmptyExpression);
    }
    match stack.pop() {
        Some(expression) => Ok(expression),
        None => Err(CalcError::EmptyExpression),
    }
}

} // verus!
