use monkey::lexer::Lexer;
use monkey::token::Token;

#[test]
fn read_char_test() {
    let input = "abc";
    let mut lexer = Lexer::new(&input);

    assert_eq!(lexer.read_char().unwrap_or(' '), 'a');
    assert_eq!(lexer.read_char().unwrap_or(' '), 'b');
    assert_eq!(lexer.read_char().unwrap_or(' '), 'c');
    assert_eq!(lexer.read_char(), None);
}

#[test]
fn peek_char_test() {
    let input = "abc";
    let mut lexer = Lexer::new(&input);

    assert_eq!(lexer.read_char().unwrap_or(' '), 'a');
    assert_eq!(lexer.peek_char().unwrap_or(' '), 'b');
    assert_eq!(lexer.read_char().unwrap_or(' '), 'b');
    assert_eq!(lexer.peek_char().unwrap_or(' '), 'c');
    assert_eq!(lexer.read_char().unwrap_or(' '), 'c');
    assert_eq!(lexer.peek_char(), None);
    assert_eq!(lexer.read_char(), None);
}

#[test]
fn skip_whitespace_test() {
    let input = "     a b  c ";
    let mut lexer = Lexer::new(&input);

    lexer.skip_whitespace();
    assert_eq!(lexer.read_char().unwrap_or(' '), 'a');
    lexer.skip_whitespace();
    assert_eq!(lexer.read_char().unwrap_or(' '), 'b');
    lexer.skip_whitespace();
    assert_eq!(lexer.read_char().unwrap_or(' '), 'c');
    lexer.skip_whitespace();
    assert_eq!(lexer.read_char(), None);
}

#[test]
fn lexer_test() {
    let input = "let five = 5;
        let ten = 10;

        let add = fn(x, y) {
            x + y;
        };

        let result = add(five, ten);
        !-/*5;
        5 < 10 > 5;

        if (5 < 10) {
            return true;
        } else {
            return false;
        }

        10 == 10;
        10 != 9;";

    let tests = vec![
        Token::Let,
        Token::Ident("five".chars().collect()),
        Token::Assign,
        Token::Int("5".chars().collect()),
        Token::SemiColon,
        Token::Let,
        Token::Ident("ten".chars().collect()),
        Token::Assign,
        Token::Int("10".chars().collect()),
        Token::SemiColon,
        Token::Let,
        Token::Ident("add".chars().collect()),
        Token::Assign,
        Token::Function,
        Token::LParen,
        Token::Ident("x".chars().collect()),
        Token::Comma,
        Token::Ident("y".chars().collect()),
        Token::RParen,
        Token::LBrace,
        Token::Ident("x".chars().collect()),
        Token::Plus,
        Token::Ident("y".chars().collect()),
        Token::SemiColon,
        Token::RBrace,
        Token::SemiColon,
        Token::Let,
        Token::Ident("result".chars().collect()),
        Token::Assign,
        Token::Ident("add".chars().collect()),
        Token::LParen,
        Token::Ident("five".chars().collect()),
        Token::Comma,
        Token::Ident("ten".chars().collect()),
        Token::RParen,
        Token::SemiColon,
        Token::Bang,
        Token::Minus,
        Token::Slash,
        Token::Asterisk,
        Token::Int("5".chars().collect()),
        Token::SemiColon,
        Token::Int("5".chars().collect()),
        Token::Lt,
        Token::Int("10".chars().collect()),
        Token::Gt,
        Token::Int("5".chars().collect()),
        Token::SemiColon,
        Token::If,
        Token::LParen,
        Token::Int("5".chars().collect()),
        Token::Lt,
        Token::Int("10".chars().collect()),
        Token::RParen,
        Token::LBrace,
        Token::Return,
        Token::True,
        Token::SemiColon,
        Token::RBrace,
        Token::Else,
        Token::LBrace,
        Token::Return,
        Token::False,
        Token::SemiColon,
        Token::RBrace,
        Token::Int("10".chars().collect()),
        Token::Eq,
        Token::Int("10".chars().collect()),
        Token::SemiColon,
        Token::Int("10".chars().collect()),
        Token::NotEq,
        Token::Int("9".chars().collect()),
        Token::SemiColon,
        Token::Eof,
    ];

    let mut lexer = Lexer::new(&input);

    for expect_token in tests.iter() {
        let actual_token = lexer.read_token();
        println!("{:?}", expect_token);

        assert_eq!(actual_token, *expect_token);
    }
}

#[test]
fn lex_collects_tokens_until_the_end_marker() {
    let tokens = monkey::lexer::lex("let x = 1;");
    assert_eq!(
        tokens,
        vec![
            Token::Let,
            Token::Ident("x".chars().collect()),
            Token::Assign,
            Token::Int("1".chars().collect()),
            Token::SemiColon,
        ]
    );
}

#[test]
fn lex_marks_unknown_characters_illegal() {
    let tokens = monkey::lexer::lex("a # b");
    assert_eq!(
        tokens,
        vec![
            Token::Ident("a".chars().collect()),
            Token::Illegal,
            Token::Ident("b".chars().collect()),
        ]
    );
}

#[test]
fn lookup_keyword_recognises_all_keywords() {
    let kw = |s: &str| Token::lookup_keyword(&s.chars().collect());
    assert_eq!(kw("fn"), Some(Token::Function));
    assert_eq!(kw("let"), Some(Token::Let));
    assert_eq!(kw("return"), Some(Token::Return));
    assert_eq!(kw("true"), Some(Token::True));
    assert_eq!(kw("false"), Some(Token::False));
    assert_eq!(kw("if"), Some(Token::If));
    assert_eq!(kw("else"), Some(Token::Else));
    assert_eq!(kw("truex"), None);
    assert_eq!(kw("letter"), None);
    assert_eq!(kw(""), None);
}
