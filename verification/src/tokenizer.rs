use vstd::prelude::*;

use crate::error::CalcError;

verus! {

/// The kinds of binary operator the grammar knows.
#[derive(Debug, Clone, Copy, PartialEq, Eq, Structural)]
pub enum OperatorKind {
    Addition,
    Subtraction,
    Multiplication,
    Division,
    Power,
}

/// An operator together with its fixed precedence and associativity,
/// assigned once at tokenization time.
#[derive(Debug, Clone, Copy, PartialEq, Eq, Structural)]
pub struct Operator {
    pub kind: OperatorKind,
    pub precedence: u8,
    pub is_left_associative: bool,
}

/// One token of the input: an integer literal, an operator, or a parenthesis.
#[derive(Debug, Clone, Copy, PartialEq, Eq, Structural)]
pub enum Token {
    Integer(i64),
    Operator(Operator),
    LParen,
    RParen,
}

impl Token {
    /// Whether this token is an operator.
    pub fn is_operator(&self) -> (r: bool)
        ensures
            r == (*self is Operator),
    {
        match self {
            Token::Operator(_) => true,
            _ => false,
        }
    }

    /// The associativity of an operator token; `false` for anything else.
    pub fn is_left_associative(&self) -> (r: bool)
        ensures
            r == (match *self {
                Token::Operator(op) => op.is_left_associative,
                _ => false,
            }),
    {
        match self {
            Token::Operator(op) => op.is_left_associative,
            _ => false,
        }
    }

    /// The precedence of an operator token; `0` for anything else.
    pub fn get_precedence(&self) -> (r: u8)
        ensures
            r == (match *self {
                Token::Operator(op) => op.precedence,
                _ => 0u8,
            }),
    {
        match self {
            Token::Operator(op) => op.precedence,
            _ => 0,
        }
    }
}

/// Whether `c` is a decimal digit.
pub open spec fn is_digit_char(c: char) -> bool {
    '0' <= c && c <= '9'
}

/// The numeric value of a decimal digit.
pub open spec fn digit_value(c: char) -> int {
    c as int - '0' as int
}

/// Whether `c` names one of the five operators.
pub open spec fn is_operator_char(c: char) -> bool {
    c == '+' || c == '-' || c == '*' || c == '/' || c == '^'
}

/// The operator token produced for an operator character, with the fixed
/// precedence and associativity table: `+ -` bind at 2 (left), `* /` at 3
/// (left), `^` at 4 (right).
pub open spec fn operator_token(c: char) -> Token {
    if c == '+' {
        Token::Operator(
            Operator { kind: OperatorKind::Addition, precedence: 2, is_left_associative: true },
        )
    } else if c == '-' {
        Token::Operator(
            Operator { kind: OperatorKind::Subtraction, precedence: 2, is_left_associative: true },
        )
    } else if c == '*' {
        Token::Operator(
            Operator {
                kind: OperatorKind::Multiplication,
                precedence: 3,
                is_left_associative: true,
            },
        )
    } else if c == '/' {
        Token::Operator(
            Operator { kind: OperatorKind::Division, precedence: 3, is_left_associative: true },
        )
    } else {
        Token::Operator(
            Operator { kind: OperatorKind::Power, precedence: 4, is_left_associative: false },
        )
    }
}

/// The value of a run of decimal digits, most significant first.
pub open spec fn digits_val(s: Seq<char>) -> int
    decreases s.len(),
{
    if s.len() == 0 {
        0
    } else {
        digits_val(s.drop_last()) * 10 + digit_value(s.last())
    }
}

/// Prepends a token to a lexing result, keeping an error as it is.
pub open spec fn lex_cons(t: Token, r: Result<Seq<Token>, CalcError>) -> Result<
    Seq<Token>,
    CalcError,
> {
    match r {
        Ok(rest) => Ok(seq![t] + rest),
        Err(e) => Err(e),
    }
}

/// The flat token sequence read from `s` starting at position `i`: digit runs
/// become single integer tokens, operator and parenthesis characters become
/// their tokens, and the first unexpected character fails the whole scan.
pub open spec fn lex_from(s: Seq<char>, i: int) -> Result<Seq<Token>, CalcError>
    decreases s.len() - i, 0int,
{
    if i < 0 || i >= s.len() {
        Ok(Seq::empty())
    } else {
        let c = s[i];
        if is_digit_char(c) {
            lex_int(s, i + 1, digit_value(c))
        } else if c == '(' {
            lex_cons(Token::LParen, lex_from(s, i + 1))
        } else if c == ')' {
            lex_cons(Token::RParen, lex_from(s, i + 1))
        } else if is_operator_char(c) {
            lex_cons(operator_token(c), lex_from(s, i + 1))
        } else {
            Err(CalcError::UnexpectedToken(c))
        }
    }
}

/// Continues a digit run whose digits so far have value `acc`; when the run
/// ends, the run fails if its value does not fit in an `i64`, and otherwise
/// becomes one integer token.
pub open spec fn lex_int(s: Seq<char>, i: int, acc: int) -> Result<Seq<Token>, CalcError>
    decreases s.len() - i, 1int,
{
    if 0 <= i < s.len() && is_digit_char(s[i]) {
        lex_int(s, i + 1, acc * 10 + digit_value(s[i]))
    } else if acc > i64::MAX as int {
        Err(CalcError::IntegerOverflow)
    } else {
        lex_cons(Token::Integer(acc as i64), lex_from(s, i))
    }
}

/// Appends already-read tokens in front of a lexing result.
pub open spec fn lex_join(ts: Seq<Token>, r: Result<Seq<Token>, CalcError>) -> Result<
    Seq<Token>,
    CalcError,
> {
    match r {
        Ok(rest) => Ok(ts + rest),
        Err(e) => Err(e),
    }
}

proof fn lemma_join_cons(ts: Seq<Token>, t: Token, r: Result<Seq<Token>, CalcError>)
    ensures
        lex_join(ts, lex_cons(t, r)) == lex_join(ts.push(t), r),
{
    match r {
        Ok(rest) => {
            assert(ts + (seq![t] + rest) =~= ts.push(t) + rest);
        },
        Err(_) => {},
    }
}

proof fn lemma_lex_int_overflow(s: Seq<char>, i: int, acc: int)
    requires
        acc > i64::MAX as int,
    ensures
        lex_int(s, i, acc) == Err::<Seq<Token>, CalcError>(CalcError::IntegerOverflow),
    decreases s.len() - i,
{
    if 0 <= i < s.len() && is_digit_char(s[i]) {
        lemma_lex_int_overflow(s, i + 1, acc * 10 + digit_value(s[i]));
    }
}

pub(crate) proof fn lemma_digits_val_nonneg(s: Seq<char>)
    requires
        forall|k: int| 0 <= k < s.len() ==> is_digit_char(s[k]),
    ensures
        digits_val(s) >= 0,
    decreases s.len(),
{
    if s.len() > 0 {
        lemma_digits_val_nonneg(s.drop_last());
    }
}

pub(crate) proof fn lemma_lex_digit_run(s: Seq<char>, i: int)
    requires
        0 < i <= s.len(),
        forall|k: int| 0 <= k < s.len() ==> is_digit_char(s[k]),
    ensures
        lex_int(s, i, digits_val(s.take(i))) == (if digits_val(s) > i64::MAX as int {
            Err::<Seq<Token>, CalcError>(CalcError::IntegerOverflow)
        } else {
            Ok::<Seq<Token>, CalcError>(seq![Token::Integer(digits_val(s) as i64)])
        }),
    decreases s.len() - i,
{
    if i == s.len() {
        lemma_digits_val_nonneg(s);
        assert(s.take(i) =~= s);
        assert(lex_from(s, i) == Ok::<Seq<Token>, CalcError>(Seq::empty()));
        if !(digits_val(s) > i64::MAX as int) {
            assert(seq![Token::Integer(digits_val(s) as i64)] + Seq::<Token>::empty()
                =~= seq![Token::Integer(digits_val(s) as i64)]);
        }
    } else {
        assert(is_digit_char(s[i]));
        assert(s.take(i + 1).drop_last() =~= s.take(i));
        assert(s.take(i + 1).last() == s[i]);
        assert(digits_val(s.take(i + 1)) == digits_val(s.take(i)) * 10 + digit_value(s[i]));
        lemma_lex_digit_run(s, i + 1);
    }
}

/// Reads the digit run that starts at `start` (the caller has seen a digit
/// there) and returns its value with the position just past the run.
///
/// Success and failure mirror the lexing model: the run fails exactly when
/// its value does not fit in an `i64`.
fn parse_integer(text: &str, start: usize) -> (res: Result<(i64, usize), CalcError>)
    requires
        start < text@.len(),
        is_digit_char(text@[start as int]),
    ensures
        match res {
            Ok(p) => start < p.1 <= text@.len() && lex_from(text@, start as int) == lex_cons(
                Token::Integer(p.0),
                lex_from(text@, p.1 as int),
            ),
            Err(e) => lex_from(text@, start as int) == Err::<Seq<Token>, CalcError>(e),
        },
{
    let ghost s = text@;
    let n = text.unicode_len();
    let c0 = text.get_char(start);
    let mut acc: i64 = (c0 as u32 - '0' as u32) as i64;
    let mut j: usize = start + 1;
    assert(acc as int == digit_value(s[start as int]));
    let mut done = false;
    while !done
        invariant
            s == text@,
            n == s.len(),
            start < n,
            is_digit_char(s[start as int]),
            start < j <= n,
            0 <= acc,
            lex_int(s, start as int + 1, digit_value(s[start as int])) == lex_int(
                s,
                j as int,
                acc as int,
            ),
            done ==> (j == n || !is_digit_char(s[j as int])),
        decreases n - j + (if done {
            0int
        } else {
            1int
        }),
    {
        if j == n {
            done = true;
        } else {
            let c = text.get_char(j);
            if '0' <= c && c <= '9' {
                let d = (c as u32 - '0' as u32) as i64;
                assert(d as int == digit_value(s[j as int]));
                let next = match acc.checked_mul(10) {
                    Some(t) => t.checked_add(d),
                    None => None,
                };
                match next {
                    Some(v) => {
                        acc = v;
                        j = j + 1;
                    },
                    None => {
                        proof {
                            lemma_lex_int_overflow(s, j as int + 1, acc as int * 10 + d as int);
                            assert(lex_int(s, j as int, acc as int) == lex_int(
                                s,
                                j as int + 1,
                                acc as int * 10 + digit_value(s[j as int]),
                            ));
                            assert(lex_from(s, start as int) == lex_int(
                                s,
                                start as int + 1,
                                digit_value(s[start as int]),
                            ));
                        }
                        return Err(CalcError::IntegerOverflow);
                    },
                }
            } else {
                done = true;
            }
        }
    }
    Ok((acc, j))
}

/// Decides whether the operator on top of the side stack leaves it when `op`
/// arrives: strictly higher precedence, or equal precedence with a
/// left-associative top.
pub open spec fn should_pop_for(top: Token, op: Operator) -> bool {
    match top {
        Token::Operator(t) => t.precedence > op.precedence || (t.precedence == op.precedence
            && t.is_left_associative),
        _ => false,
    }
}

/// The operators popped (in pop order) when `op` arrives, and the stack that
/// remains.
pub open spec fn pop_ops(stack: Seq<Token>, op: Operator) -> (Seq<Token>, Seq<Token>)
    decreases stack.len(),
{
    if stack.len() == 0 {
        (Seq::empty(), stack)
    } else if should_pop_for(stack.last(), op) {
        let pr = pop_ops(stack.drop_last(), op);
        (seq![stack.last()] + pr.0, pr.1)
    } else {
        (Seq::empty(), stack)
    }
}

/// The tokens popped to the output by a `)` (in pop order) and the stack that
/// remains once the matching `(` is discarded; fails when no `(` is on the
/// stack.
pub open spec fn pop_to_lparen(stack: Seq<Token>) -> Result<
    (Seq<Token>, Seq<Token>),
    CalcError,
>
    decreases stack.len(),
{
    if stack.len() == 0 {
        Err(CalcError::UnmatchedParen)
    } else if stack.last() is LParen {
        Ok((Seq::empty(), stack.drop_last()))
    } else {
        match pop_to_lparen(stack.drop_last()) {
            Ok(pr) => Ok((seq![stack.last()] + pr.0, pr.1)),
            Err(e) => Err(e),
        }
    }
}

/// The tokens popped to the output once the input ends, in pop order. A `(`
/// still on the stack at this point was never closed, and fails the scan.
pub open spec fn drain_stack(stack: Seq<Token>) -> Result<Seq<Token>, CalcError>
    decreases stack.len(),
{
    if stack.len() == 0 {
        Ok(Seq::empty())
    } else if stack.last() is LParen {
        Err(CalcError::UnclosedParen)
    } else {
        match drain_stack(stack.drop_last()) {
            Ok(rest) => Ok(seq![stack.last()] + rest),
            Err(e) => Err(e),
        }
    }
}

/// One step of the operator-precedence reordering: the postfix sequence that
/// results from the remaining input `input[i..]`, given the side stack and
/// the output emitted so far.
pub open spec fn shunt_from(
    input: Seq<Token>,
    i: int,
    stack: Seq<Token>,
    output: Seq<Token>,
) -> Result<Seq<Token>, CalcError>
    decreases input.len() - i,
{
    if i < 0 || i >= input.len() {
        match drain_stack(stack) {
            Ok(rest) => Ok(output + rest),
            Err(e) => Err(e),
        }
    } else {
        match input[i] {
            Token::Integer(_) => shunt_from(input, i + 1, stack, output.push(input[i])),
            Token::LParen => shunt_from(input, i + 1, stack.push(input[i]), output),
            Token::RParen => match pop_to_lparen(stack) {
                Ok(pr) => shunt_from(input, i + 1, pr.1, output + pr.0),
                Err(e) => Err(e),
            },
            Token::Operator(op) => {
                let pr = pop_ops(stack, op);
                shunt_from(input, i + 1, pr.1.push(input[i]), output + pr.0)
            },
        }
    }
}

/// The postfix (reverse Polish) reordering of a flat token sequence.
pub open spec fn shunt_spec(input: Seq<Token>) -> Result<Seq<Token>, CalcError> {
    shunt_from(input, 0, Seq::empty(), Seq::empty())
}

/// What [`tokenize`] returns: the postfix token sequence of `s`, or the first
/// error of lexing or reordering.
pub open spec fn tokenize_spec(s: Seq<char>) -> Result<Seq<Token>, CalcError> {
    match lex_from(s, 0) {
        Ok(ts) => shunt_spec(ts),
        Err(e) => Err(e),
    }
}

// The continuations that the reordering loop is in while it serves one `)`,
// one operator, or the end of the input.
spec fn rparen_cont(input: Seq<Token>, i: int, stack: Seq<Token>, output: Seq<Token>) -> Result<
    Seq<Token>,
    CalcError,
> {
    match pop_to_lparen(stack) {
        Ok(pr) => shunt_from(input, i + 1, pr.1, output + pr.0),
        Err(e) => Err(e),
    }
}

spec fn op_cont(
    input: Seq<Token>,
    i: int,
    op: Operator,
    stack: Seq<Token>,
    output: Seq<Token>,
) -> Result<Seq<Token>, CalcError> {
    let pr = pop_ops(stack, op);
    shunt_from(input, i + 1, pr.1.push(Token::Operator(op)), output + pr.0)
}

spec fn drain_cont(stack: Seq<Token>, output: Seq<Token>) -> Result<Seq<Token>, CalcError> {
    match drain_stack(stack) {
        Ok(rest) => Ok(output + rest),
        Err(e) => Err(e),
    }
}

proof fn lemma_rparen_pop(input: Seq<Token>, i: int, stack: Seq<Token>, output: Seq<Token>)
    requires
        stack.len() > 0,
        !(stack.last() is LParen),
    ensures
        rparen_cont(input, i, stack, output) == rparen_cont(
            input,
            i,
            stack.drop_last(),
            output.push(stack.last()),
        ),
{
    match pop_to_lparen(stack.drop_last()) {
        Ok(pr) => {
            assert(output + (seq![stack.last()] + pr.0) =~= output.push(stack.last()) + pr.0);
        },
        Err(_) => {},
    }
}

proof fn lemma_op_pop(
    input: Seq<Token>,
    i: int,
    op: Operator,
    stack: Seq<Token>,
    output: Seq<Token>,
)
    requires
        stack.len() > 0,
        should_pop_for(stack.last(), op),
    ensures
        op_cont(input, i, op, stack, output) == op_cont(
            input,
            i,
            op,
            stack.drop_last(),
            output.push(stack.last()),
        ),
{
    let pr = pop_ops(stack.drop_last(), op);
    assert(output + (seq![stack.last()] + pr.0) =~= output.push(stack.last()) + pr.0);
}

proof fn lemma_drain_pop(stack: Seq<Token>, output: Seq<Token>)
    requires
        stack.len() > 0,
        !(stack.last() is LParen),
    ensures
        drain_cont(stack, output) == drain_cont(stack.drop_last(), output.push(stack.last())),
{
    match drain_stack(stack.drop_last()) {
        Ok(rest) => {
            assert(output + (seq![stack.last()] + rest) =~= output.push(stack.last()) + rest);
        },
        Err(_) => {},
    }
}

/// Reorders a flat token sequence into postfix order with a side stack,
/// honouring the precedence and associativity carried by each operator
/// token.
fn shunting_yard(tokens: Vec<Token>) -> (res: Result<Vec<Token>, CalcError>)
    ensures
        match res {
            Ok(v) => shunt_spec(tokens@) == Ok::<Seq<Token>, CalcError>(v@),
            Err(e) => shunt_spec(tokens@) == Err::<Seq<Token>, CalcError>(e),
        },
{
    let ghost ts = tokens@;
    let n = tokens.len();
    let mut output: Vec<Token> = Vec::new();
    let mut stack: Vec<Token> = Vec::new();
    let mut i: usize = 0;
    while i < n
        invariant
            ts == tokens@,
            n == ts.len(),
            i <= n,
            shunt_spec(ts) == shunt_from(ts, i as int, stack@, output@),
        decreases n - i,
    {
        let token = tokens[i];
        match token {
            Token::Integer(_) => {
                output.push(token);
            },
            Token::LParen => {
                stack.push(token);
            },
            Token::RParen => {
                let mut found_left = false;
                while !found_left
                    invariant
                        ts == tokens@,
                        n == ts.len(),
                        i < n,
                        ts[i as int] is RParen,
                        found_left ==> shunt_spec(ts) == shunt_from(
                            ts,
                            i as int + 1,
                            stack@,
                            output@,
                        ),
                        !found_left ==> shunt_spec(ts) == rparen_cont(
                            ts,
                            i as int,
                            stack@,
                            output@,
                        ),
                    decreases stack@.len() + (if found_left { 0int } else { 1int }),
                {
                    if stack.len() == 0 {
                        return Err(CalcError::UnmatchedParen);
                    }
                    let top = stack[stack.len() - 1];
                    match top {
                        Token::LParen => {
                            stack.pop();
                            proof {
                                assert(output@ + Seq::<Token>::empty() =~= output@);
                            }
                            found_left = true;
                        },
                        _ => {
                            proof {
                                lemma_rparen_pop(ts, i as int, stack@, output@);
                            }
                            stack.pop();
                            output.push(top);
                        },
                    }
                }
            },
            Token::Operator(op) => {
                let mut keep = true;
                while keep
                    invariant
                        ts == tokens@,
                        n == ts.len(),
                        i < n,
                        shunt_spec(ts) == op_cont(ts, i as int, op, stack@, output@),
                        !keep ==> (stack@.len() == 0 || !should_pop_for(stack@.last(), op)),
                    decreases stack@.len() + (if keep { 1int } else { 0int }),
                {
                    if stack.len() == 0 {
                        keep = false;
                    } else {
                        let top = stack[stack.len() - 1];
                        let cond1 = top.is_operator() && top.get_precedence() > op.precedence;
                        let cond2 = top.is_operator() && op.precedence == top.get_precedence()
                            && top.is_left_associative();
                        if cond1 || cond2 {
                            proof {
                                lemma_op_pop(ts, i as int, op, stack@, output@);
                            }
                            stack.pop();
                            output.push(top);
                        } else {
                            keep = false;
                        }
                    }
                }
                stack.push(token);
                proof {
                    assert(output@ + Seq::<Token>::empty() =~= output@);
                }
            },
        }
        i = i + 1;
    }
    // The input is exhausted: pop what remains on the side stack.
    while stack.len() != 0
        invariant
            ts == tokens@,
            shunt_spec(ts) == drain_cont(stack@, output@),
        decreases stack@.len(),
    {
        let top = stack[stack.len() - 1];
        match top {
            Token::LParen => {
                proof {
                    assert(stack@.last() is LParen);
                    assert(drain_stack(stack@) == Err::<Seq<Token>, CalcError>(
                        CalcError::UnclosedParen,
                    ));
                }
                return Err(CalcError::UnclosedParen);
            },
            _ => {
                proof {
                    lemma_drain_pop(stack@, output@);
                }
                stack.pop();
                output.push(top);
            },
        }
    }
    proof {
        assert(output@ + Seq::<Token>::empty() =~= output@);
    }
    Ok(output)
}

/// Scans `text` into tokens and immediately reorders them into postfix
/// order; the result is exactly what the lexing and reordering models say,
/// error for error.
pub fn tokenize(text: &str) -> (res: Result<Vec<Token>, CalcError>)
    ensures
        match res {
            Ok(v) => tokenize_spec(text@) == Ok::<Seq<Token>, CalcError>(v@),
            Err(e) => tokenize_spec(text@) == Err::<Seq<Token>, CalcError>(e),
        },
{
    let ghost s = text@;
    let n = text.unicode_len();
    let mut result: Vec<Token> = Vec::new();
    let mut i: usize = 0;
    while i < n
        invariant
            s == text@,
            n == s.len(),
            i <= n,
            lex_from(s, 0) == lex_join(result@, lex_from(s, i as int)),
        decreases n - i,
    {
        let c = text.get_char(i);
        if '0' <= c && c <= '9' {
            match parse_integer(text, i) {
                Ok((value, next)) => {
                    proof {
                        lemma_join_cons(result@, Token::Integer(value), lex_from(s, next as int));
                    }
                    result.push(Token::Integer(value));
                    i = next;
                },
                Err(e) => {
                    return Err(e);
                },
            }
        } else if c == '(' {
            proof {
                lemma_join_cons(result@, Token::LParen, lex_from(s, i as int + 1));
            }
            result.push(Token::LParen);
            i = i + 1;
        } else if c == ')' {
            proof {
                lemma_join_cons(result@, Token::RParen, lex_from(s, i as int + 1));
            }
            result.push(Token::RParen);
            i = i + 1;
        } else if c == '+' || c == '-' || c == '*' || c == '/' || c == '^' {
            let op = if c == '+' {
                Operator { kind: OperatorKind::Addition, precedence: 2, is_left_associative: true }
            } else if c == '-' {
                Operator {
                    kind: OperatorKind::Subtraction,
                    precedence: 2,
                    is_left_associative: true,
                }
            } else if c == '*' {
                Operator {
                    kind: OperatorKind::Multiplication,
                    precedence: 3,
                    is_left_associative: true,
                }
            } else if c == '/' {
                Operator { kind: OperatorKind::Division, precedence: 3, is_left_associative: true }
            } else {
                Operator { kind: OperatorKind::Power, precedence: 4, is_left_associative: false }
            };
            proof {
                lemma_join_cons(result@, operator_token(c), lex_from(s, i as int + 1));
            }
            result.push(Token::Operator(op));
            i = i + 1;
        } else {
            return Err(CalcError::UnexpectedToken(c));
        }
    }
    proof {
        assert(result@ + Seq::<Token>::empty() =~= result@);
    }
    shunting_yard(result)
}

} // verus!
