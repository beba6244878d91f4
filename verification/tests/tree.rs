use rustcalc::error::CalcError;
use rustcalc::parser::{parse, ArithmeticExpression, Expression, IntegerExpression};
use rustcalc::result::EvaluationResult;
use rustcalc::tokenizer::{tokenize, Operator, OperatorKind, Token};
use rustcalc::Evaluator;

fn leaf(value: i64) -> Expression {
    Expression::Integer(IntegerExpression { value })
}

fn node(operator: OperatorKind, left: Expression, right: Expression) -> Expression {
    Expression::Arithmetic(ArithmeticExpression {
        operator,
        left: Box::new(left),
        right: Box::new(right),
    })
}

fn op(kind: OperatorKind, precedence: u8, is_left_associative: bool) -> Token {
    Token::Operator(Operator {
        kind,
        precedence,
        is_left_associative,
    })
}

#[test]
fn leaf_reduces_to_its_value() {
    let evaluator = Evaluator {};
    assert_eq!(leaf(5).accept(&evaluator), Ok(5));
}

#[test]
fn tree_respects_precedence_table() {
    // 1 + 9 * 9, grouped as the precedence table demands.
    let tree = node(
        OperatorKind::Addition,
        leaf(1),
        node(OperatorKind::Multiplication, leaf(9), leaf(9)),
    );
    let evaluator = Evaluator {};
    assert_eq!(tree.accept(&evaluator), Ok(82));
}

#[test]
fn tree_exponentiation_groups_to_the_right() {
    // 2 ^ (3 ^ 2): the right-recursive grouping of the power operator.
    let tree = node(
        OperatorKind::Power,
        leaf(2),
        node(OperatorKind::Power, leaf(3), leaf(2)),
    );
    let evaluator = Evaluator {};
    assert_eq!(tree.accept(&evaluator), Ok(512));
}

#[test]
fn tree_subtraction_and_division_orient_left() {
    // (10 - 4) / 3: operands are not interchangeable.
    let tree = node(
        OperatorKind::Division,
        node(OperatorKind::Subtraction, leaf(10), leaf(4)),
        leaf(3),
    );
    let evaluator = Evaluator {};
    assert_eq!(tree.accept(&evaluator), Ok(2));
}

#[test]
fn tree_division_by_zero_reports_the_error() {
    let tree = node(OperatorKind::Division, leaf(8), leaf(0));
    let evaluator = Evaluator {};
    assert_eq!(tree.accept(&evaluator), Err(CalcError::DivisionByZero));
}

#[test]
fn tree_multiplication_overflow_reports_the_error() {
    let tree = node(
        OperatorKind::Multiplication,
        leaf(i64::MAX),
        leaf(2),
    );
    let evaluator = Evaluator {};
    assert_eq!(tree.accept(&evaluator), Err(CalcError::ArithmeticOverflow));
}

#[test]
fn tokenize_reorders_into_postfix() {
    let tokens = tokenize("1+9*9").unwrap();
    assert_eq!(
        tokens,
        vec![
            Token::Integer(1),
            Token::Integer(9),
            Token::Integer(9),
            op(OperatorKind::Multiplication, 3, true),
            op(OperatorKind::Addition, 2, true),
        ]
    );
}

#[test]
fn tokenize_pops_equal_precedence_left_associative_operators() {
    let tokens = tokenize("1+1-2+10").unwrap();
    assert_eq!(
        tokens,
        vec![
            Token::Integer(1),
            Token::Integer(1),
            op(OperatorKind::Addition, 2, true),
            Token::Integer(2),
            op(OperatorKind::Subtraction, 2, true),
            Token::Integer(10),
            op(OperatorKind::Addition, 2, true),
        ]
    );
}

#[test]
fn tokenize_keeps_right_associative_power_on_the_stack() {
    let tokens = tokenize("2^3^2").unwrap();
    assert_eq!(
        tokens,
        vec![
            Token::Integer(2),
            Token::Integer(3),
            Token::Integer(2),
            op(OperatorKind::Power, 4, false),
            op(OperatorKind::Power, 4, false),
        ]
    );
}

#[test]
fn tokenize_rejects_stray_character_with_its_name() {
    let result = tokenize("3%4");
    assert_eq!(result, Err(CalcError::UnexpectedToken('%')));
}

#[test]
fn parse_builds_a_tree_from_postfix_tokens() {
    let tokens = vec![
        Token::Integer(2),
        Token::Integer(3),
        op(OperatorKind::Addition, 2, true),
    ];
    let tree = parse(tokens).unwrap();
    let evaluator = Evaluator {};
    assert_eq!(tree.accept(&evaluator), Ok(5));
}

#[test]
fn parse_rejects_empty_token_sequence() {
    let result = parse(Vec::new());
    assert!(matches!(result, Err(CalcError::EmptyExpression)));
}

#[test]
fn error_messages_name_each_failure() {
    assert_eq!(
        CalcError::MissingOperand.message(),
        "Expected operand on stack."
    );
    assert_eq!(
        CalcError::UnexpectedToken('x').message(),
        "Unexpected token 'x'."
    );
    assert_eq!(
        CalcError::UnmatchedParen.message(),
        "Missing left parenthesis in expression."
    );
}

#[test]
fn result_constructors_fill_the_record() {
    let ok = EvaluationResult::from_result(7);
    assert_eq!(ok.success, true);
    assert_eq!(ok.value, 7);
    assert_eq!(ok.error(), "");
    let failed = EvaluationResult::from_error(String::from("went wrong"));
    assert_eq!(failed.success, false);
    assert_eq!(failed.value, 0);
    assert_eq!(failed.error(), "went wrong");
}

#[test]
fn token_helpers_read_the_operator_fields() {
    let plus = op(OperatorKind::Addition, 2, true);
    let power = op(OperatorKind::Power, 4, false);
    assert!(plus.is_operator());
    assert!(plus.is_left_associative());
    assert_eq!(plus.get_precedence(), 2);
    assert!(power.is_operator());
    assert!(!power.is_left_associative());
    assert_eq!(power.get_precedence(), 4);
    assert!(!Token::LParen.is_operator());
    assert!(!Token::RParen.is_left_associative());
    assert_eq!(Token::Integer(3).get_precedence(), 0);
}
