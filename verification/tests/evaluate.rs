use rustcalc::evaluate;

#[test]
fn should_add_two_numbers_correctly() {
    let result = evaluate(&String::from("1+1-2+10"));
    assert_eq!(result.success, true);
    assert_eq!(result.value, 10);
}

#[test]
fn should_respect_operator_precedence() {
    let result = evaluate(&String::from("1+9*9"));
    assert_eq!(result.success, true);
    assert_eq!(result.value, 82);
}

#[test]
fn should_respect_parentheses() {
    let result = evaluate(&String::from("(1+9)*9"));
    assert_eq!(result.success, true);
    assert_eq!(result.value, 90);
}

#[test]
fn should_respect_associativeness() {
    let result = evaluate(&String::from("2*2^3^2"));
    assert_eq!(result.success, true);
    assert_eq!(result.value, 1024);
}

#[test]
fn should_return_error_if_operand_is_missing_from_stack_when_parsing_arithmetic_expression() {
    let result = evaluate(&String::from("^1+9*9"));
    assert_eq!(result.success, false);
    assert_eq!(result.error(), "Expected operand on stack.");
}

#[test]
fn should_return_zero_for_empty_expression() {
    let result = evaluate(&String::from(""));
    assert_eq!(result.success, true);
    assert_eq!(result.value, 0);
}

#[test]
fn single_integer_evaluates_to_itself() {
    let result = evaluate("42");
    assert_eq!(result.success, true);
    assert_eq!(result.value, 42);
    assert_eq!(result.error(), "");
}

#[test]
fn zero_literal_evaluates_to_zero() {
    let result = evaluate("0");
    assert_eq!(result.success, true);
    assert_eq!(result.value, 0);
}

#[test]
fn leading_zeros_are_plain_decimal() {
    let result = evaluate("007");
    assert_eq!(result.success, true);
    assert_eq!(result.value, 7);
}

#[test]
fn largest_integer_literal_fits() {
    let result = evaluate("9223372036854775807");
    assert_eq!(result.success, true);
    assert_eq!(result.value, i64::MAX);
}

#[test]
fn too_large_integer_literal_fails() {
    let result = evaluate("9223372036854775808");
    assert_eq!(result.success, false);
    assert_eq!(result.value, 0);
    assert_eq!(
        result.error(),
        "Integer literal does not fit in a 64-bit signed integer."
    );
}

#[test]
fn whitespace_is_an_unexpected_token() {
    let result = evaluate("1 +2");
    assert_eq!(result.success, false);
    assert_eq!(result.error(), "Unexpected token ' '.");
}

#[test]
fn stray_character_is_an_unexpected_token() {
    let result = evaluate("4@2");
    assert_eq!(result.success, false);
    assert_eq!(result.error(), "Unexpected token '@'.");
}

#[test]
fn unmatched_right_paren_fails() {
    let result = evaluate("1+2)");
    assert_eq!(result.success, false);
    assert_eq!(result.error(), "Missing left parenthesis in expression.");
}

#[test]
fn unmatched_left_paren_fails() {
    let result = evaluate("(1+2");
    assert_eq!(result.success, false);
    assert_eq!(result.error(), "Missing right parenthesis in expression.");
}

#[test]
fn empty_parens_leave_no_expression() {
    let result = evaluate("()");
    assert_eq!(result.success, false);
    assert_eq!(
        result.error(),
        "Expected expression on stack but found none."
    );
}

#[test]
fn division_truncates_toward_zero() {
    let result = evaluate("7/2");
    assert_eq!(result.success, true);
    assert_eq!(result.value, 3);
    let result = evaluate("(0-7)/2");
    assert_eq!(result.success, true);
    assert_eq!(result.value, -3);
}

#[test]
fn division_by_zero_fails() {
    let result = evaluate("8/0");
    assert_eq!(result.success, false);
    assert_eq!(result.error(), "Division by zero.");
}

#[test]
fn negative_exponent_fails() {
    let result = evaluate("2^(0-1)");
    assert_eq!(result.success, false);
    assert_eq!(result.error(), "Negative exponent.");
}

#[test]
fn addition_overflow_fails() {
    let result = evaluate("9223372036854775807+1");
    assert_eq!(result.success, false);
    assert_eq!(result.error(), "Arithmetic overflow.");
}

#[test]
fn power_overflow_fails() {
    let result = evaluate("2^64");
    assert_eq!(result.success, false);
    assert_eq!(result.error(), "Arithmetic overflow.");
}

#[test]
fn division_overflow_fails() {
    // The smallest integer divided by minus one leaves the 64-bit range.
    let result = evaluate("(0-9223372036854775807-1)/(0-1)");
    assert_eq!(result.success, false);
    assert_eq!(result.error(), "Arithmetic overflow.");
}

#[test]
fn power_of_two_exact() {
    let result = evaluate("2^10");
    assert_eq!(result.success, true);
    assert_eq!(result.value, 1024);
}

#[test]
fn power_reaches_smallest_integer() {
    let result = evaluate("(0-2)^63");
    assert_eq!(result.success, true);
    assert_eq!(result.value, i64::MIN);
}

#[test]
fn zero_to_the_zero_is_one() {
    let result = evaluate("0^0");
    assert_eq!(result.success, true);
    assert_eq!(result.value, 1);
}

#[test]
fn negative_one_power_alternates() {
    let result = evaluate("(0-1)^9999999999");
    assert_eq!(result.success, true);
    assert_eq!(result.value, -1);
    let result = evaluate("(0-1)^10000000000");
    assert_eq!(result.success, true);
    assert_eq!(result.value, 1);
}

#[test]
fn trailing_expression_shadows_earlier_one() {
    // The working stack keeps whatever the postfix run pushed; the top of
    // the stack wins and anything below it is silently ignored.
    let result = evaluate("(1)(2)");
    assert_eq!(result.success, true);
    assert_eq!(result.value, 2);
}

#[test]
fn evaluating_twice_gives_identical_results() {
    let first = evaluate("2*2^3^2");
    let second = evaluate("2*2^3^2");
    assert_eq!(first.success, second.success);
    assert_eq!(first.value, second.value);
    assert_eq!(first.error(), second.error());
    let first = evaluate("8/0");
    let second = evaluate("8/0");
    assert_eq!(first.success, second.success);
    assert_eq!(first.value, second.value);
    assert_eq!(first.error(), second.error());
}
