use monkey::lexer::lex;
use monkey::parser::{parse, ParseError};
use monkey::token::Token;

fn test_parse(expect_strings: Vec<&str>, test_strings: Vec<&str>) {
    for (&test_string, &expect_sting) in test_strings.iter().zip(expect_strings.iter()) {
        let program = parse(lex(test_string)).unwrap();
        let actual_string = &program.literal();
        assert_eq!(expect_sting, actual_string);
    }
}

#[test]
fn test_let_statements() {
    let test_strings = vec!["let x = 5;", "let y = 10;", "let foobar = 838383;"];
    let expect_strings = vec!["let x = 5;", "let y = 10;", "let foobar = 838383;"];

    test_parse(expect_strings, test_strings);
}

#[test]
fn test_return_statements() {
    let test_strings = vec!["return 5;", "return 10;", "return 993322;"];
    let expect_strings = vec!["return 5;", "return 10;", "return 993322;"];

    test_parse(expect_strings, test_strings);
}

#[test]
fn test_identifier_exprssions() {
    let test_strings = vec!["foobar;"];
    let expect_strings = vec!["foobar;"];

    test_parse(expect_strings, test_strings);
}

#[test]
fn test_integer_exprssions() {
    let test_strings = vec!["5;", "5"];
    let expect_strings = vec!["5;", "5;"];

    test_parse(expect_strings, test_strings);
}

#[test]
fn test_prefix_exprssions() {
    let test_strings = vec!["!5;", "-15;"];
    let expect_strings = vec!["(!5);", "(-15);"];

    test_parse(expect_strings, test_strings);
}

#[test]
fn test_infix_exprssions() {
    let test_strings = vec![
        "5 + 5;", "5 - 5;", "5 * 5;", "5 / 5;", "5 > 5;", "5 < 5;", "5 == 5;", "5 != 5;",
    ];
    let expect_strings = vec![
        "(5 + 5);",
        "(5 - 5);",
        "(5 * 5);",
        "(5 / 5);",
        "(5 > 5);",
        "(5 < 5);",
        "(5 == 5);",
        "(5 != 5);",
    ];

    test_parse(expect_strings, test_strings);
}

#[test]
fn test_operator_binding_power() {
    let test_strings = vec![
        "-a + b;",
        "!-a;",
        "a + b + c;",
        "a + b - c;",
        "a * b * c;",
        "a * b / c;",
        "a + b / c;",
        "a + b * c + d / e - f;",
        "5 > 4 == 3 < 4;",
        "5 < 4 != 3 > 4;",
        "3 + 4 * 5 == 3 * 1 + 4 * 5;",
    ];
    let expect_strings = vec![
        "((-a) + b);",
        "(!(-a));",
        "((a + b) + c);",
        "((a + b) - c);",
        "((a * b) * c);",
        "((a * b) / c);",
        "(a + (b / c));",
        "(((a + (b * c)) + (d / e)) - f);",
        "((5 > 4) == (3 < 4));",
        "((5 < 4) != (3 > 4));",
        "((3 + (4 * 5)) == ((3 * 1) + (4 * 5)));",
    ];

    test_parse(expect_strings, test_strings);
}

#[test]
fn test_boolean() {
    let test_strings = vec!["true;", "false;", "3 > 5 == false;", "3 < 5 == true;"];
    let expect_strings = vec![
        "true;",
        "false;",
        "((3 > 5) == false);",
        "((3 < 5) == true);",
    ];

    test_parse(expect_strings, test_strings);
}

#[test]
fn test_if_expression() {
    let test_strings = vec!["if (x < y) { x; y };", "if (x < y) { x; y; } else { z }"];
    let expect_strings = vec!["if (x < y) { x; y; };", "if (x < y) { x; y; } else { z; };"];

    test_parse(expect_strings, test_strings);
}

#[test]
fn test_function_literal() {
    let test_strings = vec!["fn(x, y){ x + y; };", "fn(){ 5 };"];
    let expect_strings = vec!["fn(x, y){ (x + y); };", "fn(){ 5; };"];

    test_parse(expect_strings, test_strings);
}

#[test]
fn test_call_expression() {
    let test_strings = vec![
        "add(x, y);",
        "a + add(b * c) + d;",
        "add(a, b, 1, 2 * 3, 4 + 5, add(6, 7 * 8));",
        "add(a + b + c * d / f + g);",
    ];
    let expect_strings = vec![
        "add(x, y);",
        "((a + add((b * c))) + d);",
        "add(a, b, 1, (2 * 3), (4 + 5), add(6, (7 * 8)));",
        "add((((a + b) + ((c * d) / f)) + g));",
    ];

    test_parse(expect_strings, test_strings);
}

#[test]
fn empty_source_parses_to_empty_program() {
    let program = parse(lex("")).unwrap();
    assert_eq!(program.literal(), "");
}

#[test]
fn canonical_form_is_independent_of_whitespace() {
    let a = parse(lex("1 + 2 * 3;")).unwrap().literal();
    let b = parse(lex("1+2*3;")).unwrap().literal();
    let c = parse(lex("  1 \t+\n 2   * 3 ;")).unwrap().literal();
    assert_eq!(a, "(1 + (2 * 3));");
    assert_eq!(b, a);
    assert_eq!(c, a);
}

#[test]
fn canonical_form_is_a_fixed_point_of_reparsing() {
    let sources = vec![
        "1 + 2 * 3;",
        "let x = 5 * -y;",
        "return add(a, b + 1);",
        "fn(x, y){ x + y; };",
    ];
    for source in sources {
        let canonical = parse(lex(source)).unwrap().literal();
        let again = parse(lex(&canonical)).unwrap().literal();
        assert_eq!(again, canonical);
    }
}

#[test]
fn missing_closing_parenthesis_is_reported() {
    let err = parse(lex("(1 + 2;")).unwrap_err();
    match err {
        ParseError::UnexpectedToken { expected, actual, position } => {
            assert_eq!(expected, Token::RParen);
            assert_eq!(actual, Token::SemiColon);
            assert_eq!(position, 4);
        },
        other => panic!("wrong error: {:?}", other),
    }
}

#[test]
fn unterminated_block_is_reported() {
    let err = parse(lex("if (x) { 1;")).unwrap_err();
    match err {
        ParseError::UnexpectedToken { expected, actual, .. } => {
            assert_eq!(expected, Token::RBrace);
            assert_eq!(actual, Token::Eof);
        },
        other => panic!("wrong error: {:?}", other),
    }
}

#[test]
fn malformed_let_is_reported() {
    let err = parse(lex("let 5 = 3;")).unwrap_err();
    assert!(matches!(err, ParseError::ExpectedIdentifier { .. }));

    let err = parse(lex("let x 5;")).unwrap_err();
    match err {
        ParseError::UnexpectedToken { expected, .. } => assert_eq!(expected, Token::Assign),
        other => panic!("wrong error: {:?}", other),
    }
}

#[test]
fn token_without_prefix_rule_is_reported() {
    let err = parse(lex("*5;")).unwrap_err();
    match err {
        ParseError::NoPrefixRule { actual, position } => {
            assert_eq!(actual, Token::Asterisk);
            assert_eq!(position, 0);
        },
        other => panic!("wrong error: {:?}", other),
    }
}

#[test]
fn trailing_commas_are_rejected() {
    assert!(parse(lex("fn(x,){ x };")).is_err());
    assert!(parse(lex("add(1,);")).is_err());
}

#[test]
fn parameters_must_be_bare_identifiers() {
    let err = parse(lex("fn(1){ 2 };")).unwrap_err();
    assert!(matches!(err, ParseError::ExpectedIdentifier { .. }));
}

#[test]
fn empty_parameter_and_argument_lists_parse() {
    let program = parse(lex("fn(){ 1 }(); ")).unwrap();
    assert_eq!(program.literal(), "fn(){ 1; }();");
}

#[test]
fn precedence_and_associativity_table() {
    let test_strings = vec!["a + b + c;", "a + b * c;", "-a * b;", "!-a;"];
    let expect_strings = vec![
        "((a + b) + c);",
        "(a + (b * c));",
        "((-a) * b);",
        "(!(-a));",
    ];
    test_parse(expect_strings, test_strings);
}
