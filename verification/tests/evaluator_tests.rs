use monkey::ast::{ExpressionNode, Program, StatementNode};
use monkey::evaluator::{EvalError, Evaluator};
use monkey::lexer::lex;
use monkey::object::Object;
use monkey::parser::parse;

/// Evaluates one source text against a fresh environment.
fn eval_source(source: &str) -> Result<Object, EvalError> {
    let program = parse(lex(source)).unwrap();
    let mut evaluator = Evaluator::new();
    evaluator.eavl_program(&program)
}

fn test_eval(expect_strings: Vec<&str>, test_strings: Vec<&str>) {
    for (&test_string, &expect_sting) in test_strings.iter().zip(expect_strings.iter()) {
        let actual_string = eval_source(test_string).unwrap().literal();
        assert_eq!(expect_sting, actual_string);
    }
}

#[test]
fn test_eval_integer_expressions() {
    let test_strings = vec!["5", "10"];
    let expect_strings = vec!["5", "10"];

    test_eval(expect_strings, test_strings);
}

#[test]
fn test_eval_boolean_expressions() {
    let test_strings = vec!["true", "false"];
    let expect_strings = vec!["true", "false"];

    test_eval(expect_strings, test_strings);
}

#[test]
fn test_eval_prefix_operator() {
    let test_strings = vec!["!true", "!false", "-10", "--5"];
    let expect_strings = vec!["false", "true", "-10", "5"];

    test_eval(expect_strings, test_strings);
}

#[test]
fn test_eval_infix_operator() {
    let test_strings = vec![
        "5 + 5 + 5 + 5 - 10",
        "2 * 2 * 2 * 2 * 2",
        "-50 + 100 + -50",
        "5 * 2 + 10",
        "5 + 2 * 10",
        "20 + 2 * -10",
        "50 / 2 * 2 + 10",
        "2 * (5 + 10)",
        "3 * 3 * 3 + 10",
        "3 * (3 * 3) + 10",
        "(5 + 10 * 2 + 15 / 3) * 2 + -10",
        "1 < 2",
        "1 > 2",
        "1 < 1",
        "1 > 1",
        "1 == 1",
        "1 != 1",
        "1 == 2",
        "1 != 2",
        "true == true",
        "false == false",
        "true == false",
        "true != false",
        "false != true",
        "(1 < 2) == true",
        "(1 < 2) == false",
        "(1 > 2) == true",
        "(1 > 2) == false",
    ];
    let expect_strings = vec![
        "10", "32", "0", "20", "25", "0", "60", "30", "37", "37", "50", "true", "false",
        "false", "false", "true", "false", "false", "true", "true", "true", "false", "true",
        "true", "true", "false", "false", "true",
    ];

    test_eval(expect_strings, test_strings);
}

#[test]
fn test_eval_if_expression() {
    let test_strings = vec![
        "if (true) {10}",
        "if (false) {10}",
        "if (1) {10}",
        "if (1 < 2) {10}",
        "if (1 > 2) {10}",
        "if (1 > 2) {10} else {20}",
        "if (1 < 2) {10} else {20}",
    ];
    let expect_strings = vec!["10", "null", "10", "10", "null", "20", "10"];

    test_eval(expect_strings, test_strings);
}

#[test]
fn test_eval_return_statements() {
    let test_strings = vec![
        "return 10",
        "return 10; 9",
        "return 2 * 5; 8;",
        "9; return 2 * 5; 7;",
        "if (10 > 1) { if (10 > 1) { return 10; } return 1; }",
    ];
    let expect_strings = vec!["10", "10", "10", "10", "10"];

    test_eval(expect_strings, test_strings);
}

#[test]
fn test_eval_let_statements() {
    let test_strings = vec![
        "let a = 5; a;",
        "let a = 5 * 5; a;",
        "let a = 5; let b = a; b;",
        "let a = 5; let b = a; let c = a + b + 5; c;",
    ];
    let expect_strings = vec!["5", "25", "5", "15"];

    test_eval(expect_strings, test_strings);

    // `lat` is an ordinary identifier, not a keyword, so the `=` after it
    // has no prefix rule: this source is a parse failure, not a value.
    assert!(parse(lex("lat a = 5; let b = a; b;")).is_err());
}

#[test]
fn closures_capture_their_defining_frame() {
    let source = "let adder = fn(x) { fn(y) { x + y } }; let addTwo = adder(2); addTwo(3);";
    assert_eq!(eval_source(source).unwrap().literal(), "5");
}

#[test]
fn early_return_short_circuits_nested_blocks() {
    let source = "if (10 > 1) { if (10 > 1) { return 10; } return 1; }";
    assert_eq!(eval_source(source).unwrap().literal(), "10");
}

#[test]
fn zero_is_truthy() {
    assert_eq!(eval_source("if (0) { 1 } else { 2 };").unwrap().literal(), "1");
}

#[test]
fn unbound_identifier_is_a_name_error() {
    match eval_source("foo;").unwrap_err() {
        EvalError::NameError { name } => {
            assert_eq!(name, "foo".chars().collect::<Vec<char>>());
        },
        other => panic!("wrong error: {:?}", other),
    }
}

#[test]
fn evaluation_is_deterministic_across_fresh_environments() {
    let source = "let a = 2; let f = fn(x) { x * a }; f(21);";
    let first = eval_source(source).unwrap().literal();
    let second = eval_source(source).unwrap().literal();
    assert_eq!(first, "42");
    assert_eq!(first, second);
}

#[test]
fn mismatched_operand_types_evaluate_to_null() {
    let test_strings = vec!["!5", "-true", "true + false", "5 == true", "true < false"];
    let expect_strings = vec!["null", "null", "null", "null", "null"];

    test_eval(expect_strings, test_strings);
}

#[test]
fn calling_a_non_function_is_a_type_error() {
    assert!(matches!(eval_source("5(1);").unwrap_err(), EvalError::TypeError));
    // The callee's type is checked before any argument is evaluated.
    assert!(matches!(eval_source("5(foo);").unwrap_err(), EvalError::TypeError));
}

#[test]
fn division_by_zero_is_an_arithmetic_error() {
    assert!(matches!(eval_source("5 / 0;").unwrap_err(), EvalError::ArithmeticError));
}

#[test]
fn division_truncates_toward_zero() {
    assert_eq!(eval_source("7 / 2;").unwrap().literal(), "3");
    assert_eq!(eval_source("-7 / 2;").unwrap().literal(), "-3");
    assert_eq!(eval_source("7 / -2;").unwrap().literal(), "-3");
    assert_eq!(eval_source("-7 / -2;").unwrap().literal(), "3");
}

#[test]
fn arithmetic_overflow_is_an_arithmetic_error() {
    assert!(matches!(
        eval_source("2147483647 + 1;").unwrap_err(),
        EvalError::ArithmeticError
    ));
    assert!(matches!(
        eval_source("0 - 2147483647 - 2;").unwrap_err(),
        EvalError::ArithmeticError
    ));
    assert!(matches!(
        eval_source("100000 * 100000;").unwrap_err(),
        EvalError::ArithmeticError
    ));
    // The most negative 32-bit value has no literal form: its magnitude
    // is already out of range before negation.
    assert!(matches!(
        eval_source("-2147483648;").unwrap_err(),
        EvalError::ArithmeticError
    ));
    assert_eq!(eval_source("-2147483647;").unwrap().literal(), "-2147483647");
}

#[test]
fn oversized_integer_literal_is_an_arithmetic_error() {
    assert!(matches!(
        eval_source("99999999999999999999;").unwrap_err(),
        EvalError::ArithmeticError
    ));
}

#[test]
fn runaway_recursion_exhausts_the_call_depth() {
    assert!(matches!(
        eval_source("let f = fn(x) { f(x) }; f(1);").unwrap_err(),
        EvalError::DepthExceeded
    ));
}

#[test]
fn malformed_let_node_is_a_structural_error() {
    // A `let` whose name slot holds an integer literal cannot come out of
    // the parser; built by hand it must fail safely.
    let mut program = Program::new();
    program.add_statement(StatementNode::LetStatement {
        identifier: Box::new(ExpressionNode::Integer { literal: vec!['1'] }),
        value: Box::new(ExpressionNode::Integer { literal: vec!['2'] }),
    });
    let mut evaluator = Evaluator::new();
    assert!(matches!(
        evaluator.eavl_program(&program).unwrap_err(),
        EvalError::StructuralError
    ));
}

#[test]
fn arity_mismatches_zip_to_the_shorter_list() {
    // Extra arguments are dropped.
    assert_eq!(eval_source("let f = fn(x, y) { x }; f(1, 2, 3);").unwrap().literal(), "1");
    // A parameter without an argument stays unbound; touching it fails.
    assert_eq!(eval_source("let f = fn(x, y) { x }; f(1);").unwrap().literal(), "1");
    assert!(matches!(
        eval_source("let f = fn(x, y) { y }; f(1);").unwrap_err(),
        EvalError::NameError { .. }
    ));
}

#[test]
fn rebinding_overwrites_in_the_same_frame() {
    assert_eq!(eval_source("let a = 1; let a = 2; a;").unwrap().literal(), "2");
    // A closure shares its defining frame, so it sees the later binding.
    assert_eq!(
        eval_source("let a = 1; let f = fn() { a }; let a = 2; f();").unwrap().literal(),
        "2"
    );
}

#[test]
fn function_parameters_shadow_outer_bindings() {
    assert_eq!(
        eval_source("let x = 1; let f = fn(x) { x }; f(9) + x;").unwrap().literal(),
        "10"
    );
}

#[test]
fn function_values_display_canonically() {
    assert_eq!(eval_source("fn(x, y) { x + y; };").unwrap().literal(), "fn(x, y) { (x + y); }");
    assert_eq!(eval_source("let a = 5;").unwrap().literal(), "null");
}
