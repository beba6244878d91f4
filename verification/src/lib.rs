//! An arithmetic expression evaluator.
//!
//! Text goes in (`+ - * / ^`, decimal integers, parentheses), and an
//! [`result::EvaluationResult`] comes out: either a 64-bit signed value or a
//! descriptive error message. The pipeline is tokenizer, operator-precedence
//! reordering into postfix, stack-based tree construction, and recursive
//! evaluation.

pub mod error;
pub mod parser;
pub mod result;
pub mod tokenizer;

use vstd::prelude::*;

verus! {

use crate::error::{error_message_spec, CalcError};
use crate::parser::{
    parse, parse_from, parse_spec, ArithmeticExpression, Expression, IntegerExpression,
};
use crate::result::EvaluationResult;
use crate::tokenizer::{
    digit_value, digits_val, drain_stack, is_digit_char, lemma_digits_val_nonneg,
    lemma_lex_digit_run, lex_from, lex_int, shunt_from, shunt_spec, tokenize, tokenize_spec,
    OperatorKind, Token,
};

/// Whether `x` lies in the range of a 64-bit signed integer.
pub open spec fn in_i64(x: int) -> bool {
    i64::MIN as int <= x <= i64::MAX as int
}

/// Division truncated toward zero, as Rust's `/` on signed integers has it;
/// meaningful only for `d != 0`.
pub open spec fn div_trunc(x: int, d: int) -> int {
    if x == 0 {
        0
    } else if x > 0 && d > 0 {
        x / d
    } else if x < 0 && d < 0 {
        (x * -1) / (d * -1)
    } else if x < 0 {
        ((x * -1) / d) * -1
    } else {
        (x / (d * -1)) * -1
    }
}

/// Mathematical exponentiation over the unbounded integers.
pub open spec fn pow_int(b: int, e: nat) -> int
    decreases e,
{
    if e == 0 {
        1
    } else {
        pow_int(b, (e - 1) as nat) * b
    }
}

/// Exponentiation as the evaluator performs it: one 64-bit checked
/// multiplication per step, failing on the first product that leaves the
/// range.
pub open spec fn pow_step(b: int, e: nat) -> Result<int, CalcError>
    decreases e,
{
    if e == 0 {
        Ok(1)
    } else {
        match pow_step(b, (e - 1) as nat) {
            Ok(v) => if in_i64(v * b) {
                Ok(v * b)
            } else {
                Err(CalcError::ArithmeticOverflow)
            },
            Err(err) => Err(err),
        }
    }
}

/// The outcome of applying one operator to two evaluated operands, in 64-bit
/// signed arithmetic: `+ - *` fail on overflow, `/` truncates toward zero
/// and fails on a zero divisor, `^` demands a non-negative exponent.
pub open spec fn apply_op(kind: OperatorKind, l: int, r: int) -> Result<int, CalcError> {
    match kind {
        OperatorKind::Addition => if in_i64(l + r) {
            Ok(l + r)
        } else {
            Err(CalcError::ArithmeticOverflow)
        },
        OperatorKind::Subtraction => if in_i64(l - r) {
            Ok(l - r)
        } else {
            Err(CalcError::ArithmeticOverflow)
        },
        OperatorKind::Multiplication => if in_i64(l * r) {
            Ok(l * r)
        } else {
            Err(CalcError::ArithmeticOverflow)
        },
        OperatorKind::Division => if r == 0 {
            Err(CalcError::DivisionByZero)
        } else if in_i64(div_trunc(l, r)) {
            Ok(div_trunc(l, r))
        } else {
            Err(CalcError::ArithmeticOverflow)
        },
        OperatorKind::Power => if r < 0 {
            Err(CalcError::NegativeExponent)
        } else {
            pow_step(l, r as nat)
        },
    }
}

/// The value of an expression tree: a leaf is its stored value, an inner
/// node evaluates its left child fully, then its right child, then combines
/// the two; the first failure wins.
pub open spec fn eval_tree(e: Expression) -> Result<int, CalcError>
    decreases e,
{
    match e {
        Expression::Integer(node) => Ok(node.value as int),
        Expression::Arithmetic(node) => match eval_tree(*node.left) {
            Ok(l) => match eval_tree(*node.right) {
                Ok(r) => apply_op(node.operator, l, r),
                Err(err) => Err(err),
            },
            Err(err) => Err(err),
        },
    }
}

proof fn lemma_pow_step_err(b: int, e1: nat, e2: nat)
    requires
        e1 <= e2,
        pow_step(b, e1) is Err,
    ensures
        pow_step(b, e2) == pow_step(b, e1),
    decreases e2,
{
    if e2 > e1 {
        lemma_pow_step_err(b, e1, (e2 - 1) as nat);
    }
}

proof fn lemma_pow_step_zero(e: nat)
    requires
        e > 0,
    ensures
        pow_step(0, e) == Ok::<int, CalcError>(0),
    decreases e,
{
    if e > 1 {
        lemma_pow_step_zero((e - 1) as nat);
    } else {
        assert(pow_step(0, 0) == Ok::<int, CalcError>(1));
    }
}

proof fn lemma_pow_step_one(e: nat)
    ensures
        pow_step(1, e) == Ok::<int, CalcError>(1),
    decreases e,
{
    if e > 0 {
        lemma_pow_step_one((e - 1) as nat);
    }
}

proof fn lemma_pow_step_neg_one(e: nat)
    ensures
        pow_step(-1, e) == Ok::<int, CalcError>(
            if e % 2 == 0 {
                1int
            } else {
                -1int
            },
        ),
    decreases e,
{
    if e > 0 {
        lemma_pow_step_neg_one((e - 1) as nat);
    }
}

proof fn lemma_pow_step_sound(b: int, e: nat)
    ensures
        match pow_step(b, e) {
            Ok(v) => v == pow_int(b, e),
            Err(_) => true,
        },
    decreases e,
{
    if e > 0 {
        lemma_pow_step_sound(b, (e - 1) as nat);
    }
}

proof fn lemma_pow_step_ok_in_range(b: int, e: nat)
    ensures
        match pow_step(b, e) {
            Ok(v) => in_i64(v),
            Err(_) => true,
        },
{
    if e == 0 {
    }
}

proof fn lemma_pow_step_err_is_overflow(b: int, e: nat)
    ensures
        pow_step(b, e) is Err ==> pow_step(b, e) == Err::<int, CalcError>(
            CalcError::ArithmeticOverflow,
        ),
    decreases e,
{
    if e > 0 {
        lemma_pow_step_err_is_overflow(b, (e - 1) as nat);
    }
}

proof fn lemma_pow_int_zero(e: nat)
    requires
        e > 0,
    ensures
        pow_int(0, e) == 0,
    decreases e,
{
    if e > 1 {
        lemma_pow_int_zero((e - 1) as nat);
    }
}

proof fn lemma_pow_int_one(e: nat)
    ensures
        pow_int(1, e) == 1,
    decreases e,
{
    if e > 0 {
        lemma_pow_int_one((e - 1) as nat);
    }
}

proof fn lemma_pow_int_neg_one(e: nat)
    ensures
        pow_int(-1, e) == (if e % 2 == 0 {
            1int
        } else {
            -1int
        }),
    decreases e,
{
    if e > 0 {
        lemma_pow_int_neg_one((e - 1) as nat);
    }
}

proof fn lemma_pow_step_complete(b: int, e: nat)
    requires
        in_i64(pow_int(b, e)),
    ensures
        pow_step(b, e) == Ok::<int, CalcError>(pow_int(b, e)),
    decreases e,
{
    if e == 0 {
    } else if b == 0 {
        lemma_pow_step_zero(e);
        lemma_pow_int_zero(e);
    } else if b == 1 {
        lemma_pow_step_one(e);
        lemma_pow_int_one(e);
    } else if b == -1 {
        lemma_pow_step_neg_one(e);
        lemma_pow_int_neg_one(e);
    } else {
        // A base of magnitude at least two at least doubles the magnitude
        // with every step, so the next-to-last power fits as well.
        let p = pow_int(b, (e - 1) as nat);
        assert(pow_int(b, e) == p * b);
        if p >= 0 {
            if b >= 2 {
                assert(p * b >= p * 2) by (nonlinear_arith)
                    requires
                        p >= 0,
                        b >= 2,
                ;
            } else {
                assert(p * b <= p * (-2)) by (nonlinear_arith)
                    requires
                        p >= 0,
                        b <= -2,
                ;
            }
        } else {
            if b >= 2 {
                assert(p * b <= p * 2) by (nonlinear_arith)
                    requires
                        p < 0,
                        b >= 2,
                ;
            } else {
                assert(p * b >= p * (-2)) by (nonlinear_arith)
                    requires
                        p < 0,
                        b <= -2,
                ;
            }
        }
        assert(in_i64(p));
        lemma_pow_step_complete(b, (e - 1) as nat);
    }
}

/// The evaluator's exponentiation is exactly mathematical exponentiation
/// confined to the 64-bit signed range: it computes `b^e` whenever that
/// value fits, and reports an overflow exactly when it does not.
pub proof fn lemma_pow_step_exact(b: int, e: nat)
    ensures
        pow_step(b, e) == (if in_i64(pow_int(b, e)) {
            Ok::<int, CalcError>(pow_int(b, e))
        } else {
            Err::<int, CalcError>(CalcError::ArithmeticOverflow)
        }),
{
    if in_i64(pow_int(b, e)) {
        lemma_pow_step_complete(b, e);
    } else {
        lemma_pow_step_sound(b, e);
        lemma_pow_step_ok_in_range(b, e);
        lemma_pow_step_err_is_overflow(b, e);
    }
}

/// The value of an expression tree in ideal arithmetic: unbounded integers,
/// with division truncated toward zero failing on a zero divisor and
/// exponentiation failing on a negative exponent.
pub open spec fn math_value(e: Expression) -> Result<int, CalcError>
    decreases e,
{
    match e {
        Expression::Integer(node) => Ok(node.value as int),
        Expression::Arithmetic(node) => match math_value(*node.left) {
            Ok(l) => match math_value(*node.right) {
                Ok(r) => match node.operator {
                    OperatorKind::Addition => Ok(l + r),
                    OperatorKind::Subtraction => Ok(l - r),
                    OperatorKind::Multiplication => Ok(l * r),
                    OperatorKind::Division => if r == 0 {
                        Err(CalcError::DivisionByZero)
                    } else {
                        Ok(div_trunc(l, r))
                    },
                    OperatorKind::Power => if r < 0 {
                        Err(CalcError::NegativeExponent)
                    } else {
                        Ok(pow_int(l, r as nat))
                    },
                },
                Err(err) => Err(err),
            },
            Err(err) => Err(err),
        },
    }
}

/// Whether every subexpression whose ideal value is defined stays within
/// the 64-bit signed range.
pub open spec fn values_in_range(e: Expression) -> bool
    decreases e,
{
    match e {
        Expression::Integer(_) => true,
        Expression::Arithmetic(node) => values_in_range(*node.left) && values_in_range(*node.right)
            && (match math_value(e) {
            Ok(v) => in_i64(v),
            Err(_) => true,
        }),
    }
}

/// The evaluator computes ideal arithmetic: on any tree all of whose
/// intermediate values fit in the 64-bit signed range, its result — value or
/// failure — is exactly that of unbounded integer arithmetic with the
/// operator table's meaning of `+ - * / ^`.
pub proof fn lemma_eval_tree_matches_arithmetic(e: Expression)
    requires
        values_in_range(e),
    ensures
        eval_tree(e) == math_value(e),
    decreases e,
{
    match e {
        Expression::Integer(_) => {},
        Expression::Arithmetic(node) => {
            lemma_eval_tree_matches_arithmetic(*node.left);
            lemma_eval_tree_matches_arithmetic(*node.right);
            match (math_value(*node.left), math_value(*node.right)) {
                (Ok(l), Ok(r)) => {
                    if node.operator is Power && r >= 0 {
                        lemma_pow_step_complete(l, r as nat);
                    }
                },
                _ => {},
            }
        },
    }
}

/// Raises `base` to the `exp`-th power in checked 64-bit arithmetic.
fn checked_pow(base: i64, exp: i64) -> (res: Result<i64, CalcError>)
    requires
        exp >= 0,
    ensures
        match res {
            Ok(v) => pow_step(base as int, exp as nat) == Ok::<int, CalcError>(v as int),
            Err(e) => pow_step(base as int, exp as nat) == Err::<int, CalcError>(e),
        },
{
    if base == 0 {
        if exp == 0 {
            Ok(1)
        } else {
            proof {
                lemma_pow_step_zero(exp as nat);
            }
            Ok(0)
        }
    } else if base == 1 {
        proof {
            lemma_pow_step_one(exp as nat);
        }
        Ok(1)
    } else if base == -1 {
        proof {
            lemma_pow_step_neg_one(exp as nat);
        }
        let e = exp as u64;
        if e % 2 == 0 {
            Ok(1)
        } else {
            Ok(-1)
        }
    } else {
        let e = exp as u64;
        let mut result: i64 = 1;
        let mut i: u64 = 0;
        while i < e
            invariant
                exp >= 0,
                e == exp as u64,
                e as int == exp as int,
                i <= e,
                pow_step(base as int, i as nat) == Ok::<int, CalcError>(result as int),
            decreases e - i,
        {
            match result.checked_mul(base) {
                Some(v) => {
                    assert(pow_step(base as int, (i + 1) as nat) == Ok::<int, CalcError>(
                        v as int,
                    ));
                    result = v;
                    i = i + 1;
                },
                None => {
                    proof {
                        assert(pow_step(base as int, (i + 1) as nat) == Err::<int, CalcError>(
                            CalcError::ArithmeticOverflow,
                        ));
                        lemma_pow_step_err(base as int, (i + 1) as nat, exp as nat);
                    }
                    return Err(CalcError::ArithmeticOverflow);
                },
            }
        }
        Ok(result)
    }
}

/// The visitor that reduces an expression tree to its value.
pub struct Evaluator {}

impl Evaluator {
    /// A leaf reduces to its stored value.
    pub fn visit_integer(&self, node: &IntegerExpression) -> (r: i64)
        ensures
            r == node.value,
    {
        node.value
    }

    /// An inner node reduces its left child, then its right child, then
    /// combines the two values with its operator in checked 64-bit
    /// arithmetic.
    pub fn visit_arithmetic(&self, node: &ArithmeticExpression) -> (res: Result<i64, CalcError>)
        ensures
            match res {
                Ok(v) => eval_tree(Expression::Arithmetic(*node)) == Ok::<int, CalcError>(
                    v as int,
                ),
                Err(e) => eval_tree(Expression::Arithmetic(*node)) == Err::<int, CalcError>(e),
            },
        decreases *node,
    {
        let left = match node.left.accept(self) {
            Ok(v) => v,
            Err(e) => {
                return Err(e);
            },
        };
        let right = match node.right.accept(self) {
            Ok(v) => v,
            Err(e) => {
                return Err(e);
            },
        };
        match node.operator {
            OperatorKind::Addition => match left.checked_add(right) {
                Some(v) => Ok(v),
                None => Err(CalcError::ArithmeticOverflow),
            },
            OperatorKind::Subtraction => match left.checked_sub(right) {
                Some(v) => Ok(v),
                None => Err(CalcError::ArithmeticOverflow),
            },
            OperatorKind::Multiplication => match left.checked_mul(right) {
                Some(v) => Ok(v),
                None => Err(CalcError::ArithmeticOverflow),
            },
            OperatorKind::Division => {
                if right == 0 {
                    Err(CalcError::DivisionByZero)
                } else {
                    match left.checked_div(right) {
                        Some(v) => Ok(v),
                        None => Err(CalcError::ArithmeticOverflow),
                    }
                }
            },
            OperatorKind::Power => {
                if right < 0 {
                    Err(CalcError::NegativeExponent)
                } else {
                    checked_pow(left, right)
                }
            },
        }
    }
}

impl Expression {
    /// Double dispatch into the evaluator; the result is exactly what the
    /// tree model says, error for error.
    pub fn accept(&self, visitor: &Evaluator) -> (res: Result<i64, CalcError>)
        ensures
            match res {
                Ok(v) => eval_tree(*self) == Ok::<int, CalcError>(v as int),
                Err(e) => eval_tree(*self) == Err::<int, CalcError>(e),
            },
        decreases *self,
    {
        match self {
            Expression::Integer(node) => Ok(visitor.visit_integer(node)),
            Expression::Arithmetic(node) => visitor.visit_arithmetic(node),
        }
    }
}

/// What [`evaluate`] computes: zero for empty input, and otherwise the
/// composition of lexing, postfix reordering, tree building and evaluation,
/// stopping at the first failing stage.
pub open spec fn evaluate_spec(s: Seq<char>) -> Result<int, CalcError> {
    if s.len() == 0 {
        Ok(0)
    } else {
        match tokenize_spec(s) {
            Ok(ts) => match parse_spec(ts) {
                Ok(tree) => eval_tree(tree),
                Err(e) => Err(e),
            },
            Err(e) => Err(e),
        }
    }
}

/// The record [`evaluate`] owes for input `s`: on success the computed value
/// and an empty message, on failure a zero value and the failing stage's
/// exact message.
pub open spec fn evaluate_post(s: Seq<char>, r: EvaluationResult) -> bool {
    match evaluate_spec(s) {
        Ok(v) => r.success && r.value as int == v && r.error@ == Seq::<char>::empty(),
        Err(e) => !r.success && r.value == 0 && r.error@ == error_message_spec(e),
    }
}

/// Evaluates an arithmetic expression given as text.
///
/// Empty input short-circuits to a successful zero. Otherwise the text is
/// tokenized and reordered, parsed into a tree, and reduced; the first stage
/// to fail produces a failed result carrying that stage's message.
pub fn evaluate(text: &str) -> (r: EvaluationResult)
    ensures
        evaluate_post(text@, r),
{
    // Empty expression?
    if text.is_empty() {
        return EvaluationResult::from_result(0);
    }
    // Tokenize the expression
    let tokens = match tokenize(text) {
        Ok(tokens) => tokens,
        Err(err) => {
            return EvaluationResult::from_error(err.message());
        },
    };
    // Parse the expression
    let expression = match parse(tokens) {
        Ok(expression) => expression,
        Err(err) => {
            return EvaluationResult::from_error(err.message());
        },
    };
    // Evaluate the expression
    let evaluator = Evaluator {};
    match expression.accept(&evaluator) {
        Ok(result) => EvaluationResult::from_result(result),
        Err(err) => EvaluationResult::from_error(err.message()),
    }
}

/// A plain run of decimal digits evaluates to exactly the integer it
/// writes, whenever that integer fits in a 64-bit signed value.
pub proof fn lemma_evaluate_integer_literal(s: Seq<char>)
    requires
        s.len() > 0,
        forall|k: int| 0 <= k < s.len() ==> is_digit_char(s[k]),
        digits_val(s) <= i64::MAX as int,
    ensures
        evaluate_spec(s) == Ok::<int, CalcError>(digits_val(s)),
{
    lemma_digits_val_nonneg(s);
    // The scan turns the whole input into one integer token.
    assert(s.take(1).len() == 1);
    assert(s.take(1).drop_last() =~= Seq::<char>::empty());
    assert(digits_val(Seq::<char>::empty()) == 0);
    assert(s.take(1).last() == s[0]);
    assert(digits_val(s.take(1)) == digit_value(s[0]));
    lemma_lex_digit_run(s, 1);
    let v = digits_val(s) as i64;
    let tok = Token::Integer(v);
    assert(lex_from(s, 0) == lex_int(s, 1, digit_value(s[0])));
    assert(lex_from(s, 0) == Ok::<Seq<Token>, CalcError>(seq![tok]));
    // The reordering passes a single integer token straight through.
    let ts = seq![tok];
    assert(shunt_spec(ts) == shunt_from(ts, 1, Seq::empty(), Seq::<Token>::empty().push(tok)));
    assert(drain_stack(Seq::<Token>::empty()) == Ok::<Seq<Token>, CalcError>(Seq::empty()));
    assert(Seq::<Token>::empty().push(tok) + Seq::<Token>::empty() =~= ts);
    assert(shunt_spec(ts) == Ok::<Seq<Token>, CalcError>(ts));
    assert(tokenize_spec(s) == Ok::<Seq<Token>, CalcError>(ts));
    // The parser turns the token into a leaf, and the evaluator reads it.
    let leaf = Expression::Integer(IntegerExpression { value: v });
    assert(parse_spec(ts) == parse_from(ts, 1, Seq::<Expression>::empty().push(leaf)));
    assert(Seq::<Expression>::empty().push(leaf).last() == leaf);
    assert(parse_spec(ts) == Ok::<Expression, CalcError>(leaf));
    assert(eval_tree(leaf) == Ok::<int, CalcError>(digits_val(s)));
}

/// Evaluation has no hidden state: two results for the same text are
/// identical, field for field.
pub proof fn lemma_evaluate_idempotent(s: Seq<char>, r1: EvaluationResult, r2: EvaluationResult)
    requires
        evaluate_post(s, r1),
        evaluate_post(s, r2),
    ensures
        r1.success == r2.success,
        r1.value == r2.value,
        r1.error@ == r2.error@,
{
}

} // verus!
