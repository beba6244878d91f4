use vstd::prelude::*;

verus! {

/// The ways an evaluation can fail.
///
/// Every failure carries a fixed human-readable message, produced by
/// [`CalcError::message`]; the facade hands that text to the caller.
#[derive(Debug, Clone, Copy, PartialEq, Eq)]
pub enum CalcError {
    /// A run of digits does not fit in a 64-bit signed integer.
    IntegerOverflow,
    /// A character outside the accepted alphabet (digits, `+ - * / ^ ( )`).
    UnexpectedToken(char),
    /// A `)` with no matching `(` on the side stack.
    UnmatchedParen,
    /// A `(` still open when the input ends.
    UnclosedParen,
    /// An operator found fewer than two operands on the working stack.
    MissingOperand,
    /// No expression remained on the working stack at the end of parsing.
    EmptyExpression,
    /// The right operand of `/` evaluated to zero.
    DivisionByZero,
    /// The right operand of `^` evaluated to a negative number.
    NegativeExponent,
    /// An arithmetic step left the 64-bit signed integer range.
    ArithmeticOverflow,
}

/// The exact message text that belongs to each error.
pub open spec fn error_message_spec(e: CalcError) -> Seq<char> {
    match e {
        CalcError::IntegerOverflow => "Integer literal does not fit in a 64-bit signed integer."@,
        CalcError::UnexpectedToken(c) => "Unexpected token '"@ + seq![c] + "'."@,
        CalcError::UnmatchedParen => "Missing left parenthesis in expression."@,
        CalcError::UnclosedParen => "Missing right parenthesis in expression."@,
        CalcError::MissingOperand => "Expected operand on stack."@,
        CalcError::EmptyExpression => "Expected expression on stack but found none."@,
        CalcError::DivisionByZero => "Division by zero."@,
        CalcError::NegativeExponent => "Negative exponent."@,
        CalcError::ArithmeticOverflow => "Arithmetic overflow."@,
    }
}

/// Relies on `String::push`: appends exactly one character at the end.
#[verifier::external_body]
fn push_char(s: &mut String, c: char)
    ensures
        final(s)@ == old(s)@ + seq![c],
{
    s.push(c);
}

impl CalcError {
    /// The human-readable message for this error.
    pub fn message(&self) -> (r: String)
        ensures
            r@ == error_message_spec(*self),
    {
        match self {
            CalcError::IntegerOverflow => String::from_str(
                "Integer literal does not fit in a 64-bit signed integer.",
            ),
            CalcError::UnexpectedToken(c) => {
                let mut r = String::from_str("Unexpected token '");
                push_char(&mut r, *c);
                r.concat("'.")
            },
            CalcError::UnmatchedParen => String::from_str(
                "Missing left parenthesis in expression.",
            ),
            CalcError::UnclosedParen => String::from_str(
                "Missing right parenthesis in expression.",
            ),
            CalcError::MissingOperand => String::from_str("Expected operand on stack."),
            CalcError::EmptyExpression => String::from_str(
                "Expected expression on stack but found none.",
            ),
            CalcError::DivisionByZero => String::from_str("Division by zero."),
            CalcError::NegativeExponent => String::from_str("Negative exponent."),
            CalcError::ArithmeticOverflow => String::from_str("Arithmetic overflow."),
        }
    }
}

} // verus!
