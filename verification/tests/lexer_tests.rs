use scriptlex::lexer::Lexer;
use scriptlex::token::Token;

fn collect_tokens(source: &str) -> Vec<Token> {
    let mut lexer = Lexer::new(String::from(source)).unwrap();
    let mut tokens = Vec::new();
    while let Some(t) = lexer.next_token() {
        tokens.push(t);
    }
    tokens
}

fn assert_tokens(source: &str, expected: &[Token]) {
    let tokens = collect_tokens(source);
    assert_eq!(tokens.len(), expected.len());
    for (i, t) in tokens.iter().enumerate() {
        assert_eq!(*t, expected[i]);
    }
}

#[test]
fn single_character_identifiers() {
    let source = String::from("\nlet y = f(x);\n        ");
    let expected = [
        Token::Let,
        Token::Ident("y".to_string()),
        Token::Assign,
        Token::Ident("f".to_string()),
        Token::LParen,
        Token::Ident("x".to_string()),
        Token::RParen,
        Token::Semicolon,
        Token::EOF,
    ];
    let mut expected = expected.iter();

    let mut lexer = Lexer::new(source).unwrap();
    while let Some(t) = lexer.next_token() {
        let e = expected.next().unwrap();
        assert_eq!(t, *e);
    }
    assert!(expected.next().is_none());
}

#[test]
fn operator_after() {
    let source = String::from("henlo! ==!= 10; 10= 10== 10!=");
    let expected = [
        Token::Ident("henlo".to_string()),
        Token::Bang,
        Token::Equals,
        Token::DoesntEqual,
        Token::Int(10),
        Token::Semicolon,
        Token::Int(10),
        Token::Assign,
        Token::Int(10),
        Token::Equals,
        Token::Int(10),
        Token::DoesntEqual,
        Token::EOF,
    ];
    let mut expected = expected.iter();

    let mut lexer = Lexer::new(source).unwrap();
    while let Some(t) = lexer.next_token() {
        let e = expected.next().unwrap();
        assert_eq!(t, *e);
    }
    assert!(expected.next().is_none());
}

#[test]
fn basic_operators() {
    let source = String::from("{],.;=+");
    let expected = [
        Token::LBrace,
        Token::RBracket,
        Token::Comma,
        Token::Dot,
        Token::Semicolon,
        Token::Assign,
        Token::Plus,
        Token::EOF,
    ];
    let mut expected = expected.iter();

    let mut lexer = Lexer::new(source).unwrap();
    while let Some(t) = lexer.next_token() {
        let e = expected.next().unwrap();
        assert_eq!(t, *e);
    }
    assert!(expected.next().is_none());
}

#[test]
fn basic_source_code() {
    let source = "\nlet ten = 10;\nlet add = fn(x, y) {\n    x + y;\n}\n        ";
    let source = String::from(source);

    let expected = [
        Token::Let,
        Token::Ident("ten".to_string()),
        Token::Assign,
        Token::Int(10),
        Token::Semicolon,
        Token::Let,
        Token::Ident("add".to_string()),
        Token::Assign,
        Token::Function,
        Token::LParen,
        Token::Ident("x".to_string()),
        Token::Comma,
        Token::Ident("y".to_string()),
        Token::RParen,
        Token::LBrace,
        Token::Ident("x".to_string()),
        Token::Plus,
        Token::Ident("y".to_string()),
        Token::Semicolon,
        Token::RBrace,
        Token::EOF,
    ];
    let mut expected = expected.iter();

    let mut lexer = Lexer::new(source).unwrap();
    while let Some(t) = lexer.next_token() {
        let e = expected.next().unwrap();
        assert_eq!(t, *e);
    }
    assert!(expected.next().is_none());
}

#[test]
fn if_else_return_booleans() {
    let source = String::from("\nif henlo else world return universe\n        ");
    let expected = [
        Token::If,
        Token::Ident(String::from("henlo")),
        Token::Else,
        Token::Ident(String::from("world")),
        Token::Return,
        Token::Ident(String::from("universe")),
        Token::EOF,
    ];
    let mut expected = expected.iter();

    let mut lexer = Lexer::new(source).unwrap();
    while let Some(t) = lexer.next_token() {
        let e = expected.next().unwrap();
        assert_eq!(t, *e);
    }
    assert!(expected.next().is_none());
}

#[test]
fn two_symbol_operators() {
    let source = String::from("\nlet is_equal = 10 == 12;\n        ");
    let expected = [
        Token::Let,
        Token::Ident(String::from("is_equal")),
        Token::Assign,
        Token::Int(10),
        Token::Equals,
        Token::Int(12),
        Token::Semicolon,
        Token::EOF,
    ];
    let mut expected = expected.iter();

    let mut lexer = Lexer::new(source).unwrap();
    while let Some(t) = lexer.next_token() {
        let e = expected.next().unwrap();
        assert_eq!(t, *e);
    }
    assert!(expected.next().is_none());
}

#[test]
fn two_symbol_operators2() {
    let source = String::from("== !=");
    let expected = vec![Token::Equals, Token::DoesntEqual, Token::EOF];
    let mut expected = expected.iter();

    let mut lexer = Lexer::new(source).unwrap();
    while let Some(t) = lexer.next_token() {
        let e = expected.next().unwrap();
        assert_eq!(t, *e);
    }
    assert!(expected.next().is_none());
}

#[test]
fn let_statement_with_double_semicolon() {
    assert_tokens(
        "let is_equal = 10;;",
        &[
            Token::Let,
            Token::Ident(String::from("is_equal")),
            Token::Assign,
            Token::Int(10),
            Token::Semicolon,
            Token::Semicolon,
            Token::EOF,
        ],
    );
}

#[test]
fn sequence_is_exhausted_after_eof() {
    let mut lexer = Lexer::new(String::from("a b")).unwrap();
    let mut eof_count = 0;
    let mut total = 0;
    while let Some(t) = lexer.next_token() {
        total += 1;
        if t == Token::EOF {
            eof_count += 1;
        }
    }
    assert_eq!(total, 3);
    assert_eq!(eof_count, 1);
    assert!(lexer.next_token().is_none());
    assert!(lexer.next_token().is_none());
}

#[test]
fn eof_is_final_and_unique() {
    let tokens = collect_tokens("let x = 1; if y { z } else { w }");
    assert_eq!(*tokens.last().unwrap(), Token::EOF);
    let eof_count = tokens.iter().filter(|t| **t == Token::EOF).count();
    assert_eq!(eof_count, 1);
}

#[test]
fn empty_input_is_rejected() {
    assert!(Lexer::new(String::new()).is_none());
    assert!(Lexer::new(String::from(" ")).is_some());
}

#[test]
fn keyword_lookup_is_exact() {
    assert_eq!(Lexer::determine_keyword("fn"), Some(Token::Function));
    assert_eq!(Lexer::determine_keyword("let"), Some(Token::Let));
    assert_eq!(Lexer::determine_keyword("if"), Some(Token::If));
    assert_eq!(Lexer::determine_keyword("else"), Some(Token::Else));
    assert_eq!(Lexer::determine_keyword("return"), Some(Token::Return));
    assert_eq!(Lexer::determine_keyword("true"), Some(Token::Boolean(true)));
    assert_eq!(Lexer::determine_keyword("false"), Some(Token::Boolean(false)));
    assert_eq!(Lexer::determine_keyword("Let"), None);
    assert_eq!(Lexer::determine_keyword("LET"), None);
    assert_eq!(Lexer::determine_keyword("fnx"), None);
    assert_eq!(Lexer::determine_keyword("letter"), None);
    assert_eq!(Lexer::determine_keyword("retur"), None);
    assert_eq!(Lexer::determine_keyword(""), None);
}

#[test]
fn case_variant_keyword_is_identifier() {
    assert_tokens(
        "Let x",
        &[
            Token::Ident(String::from("Let")),
            Token::Ident(String::from("x")),
            Token::EOF,
        ],
    );
}

#[test]
fn boolean_literals() {
    assert_tokens(
        "true false truex",
        &[
            Token::Boolean(true),
            Token::Boolean(false),
            Token::Ident(String::from("truex")),
            Token::EOF,
        ],
    );
}

#[test]
fn triple_equals_takes_two_then_one() {
    assert_tokens("===", &[Token::Equals, Token::Assign, Token::EOF]);
}

#[test]
fn bang_equals_equals_takes_two_then_one() {
    assert_tokens("!==", &[Token::DoesntEqual, Token::Assign, Token::EOF]);
}

#[test]
fn lone_operators_at_end_of_input() {
    assert_tokens("=", &[Token::Assign, Token::EOF]);
    assert_tokens("!", &[Token::Bang, Token::EOF]);
}

#[test]
fn integer_accumulation_most_significant_first() {
    assert_tokens("123", &[Token::Int(123), Token::EOF]);
    assert_tokens("007", &[Token::Int(7), Token::EOF]);
    assert_tokens(
        "1 23 456",
        &[Token::Int(1), Token::Int(23), Token::Int(456), Token::EOF],
    );
    assert_tokens(
        "12abc",
        &[
            Token::Int(12),
            Token::Ident(String::from("abc")),
            Token::EOF,
        ],
    );
}

#[test]
fn integer_accumulation_wraps_modulo_2_pow_32() {
    assert_tokens("4294967295", &[Token::Int(4294967295), Token::EOF]);
    assert_tokens("4294967296", &[Token::Int(0), Token::EOF]);
    assert_tokens("4294967297", &[Token::Int(1), Token::EOF]);
}

#[test]
fn remaining_single_character_operators() {
    assert_tokens(
        "a * b / c < d > e",
        &[
            Token::Ident(String::from("a")),
            Token::Mul,
            Token::Ident(String::from("b")),
            Token::Div,
            Token::Ident(String::from("c")),
            Token::LessThan,
            Token::Ident(String::from("d")),
            Token::MoreThan,
            Token::Ident(String::from("e")),
            Token::EOF,
        ],
    );
}

#[test]
fn unrecognized_character_is_illegal_token() {
    assert_tokens("@", &[Token::Illegal, Token::EOF]);
    assert_tokens(
        "a @ b",
        &[
            Token::Ident(String::from("a")),
            Token::Illegal,
            Token::Ident(String::from("b")),
            Token::EOF,
        ],
    );
    assert_tokens(
        "x#y",
        &[
            Token::Ident(String::from("x")),
            Token::Illegal,
            Token::Ident(String::from("y")),
            Token::EOF,
        ],
    );
}

#[test]
fn whitespace_variants_yield_same_tokens() {
    let plain = collect_tokens("let x = 1");
    assert_eq!(collect_tokens("let  x  =  1"), plain);
    assert_eq!(collect_tokens("let\tx\t=\t1"), plain);
    assert_eq!(collect_tokens("  let x = 1  "), plain);
    assert_eq!(collect_tokens("\nlet\nx\n=\n1\n"), plain);
}

#[test]
fn newline_sequences_normalize_to_spaces() {
    assert_tokens(
        "a\r\nb",
        &[
            Token::Ident(String::from("a")),
            Token::Ident(String::from("b")),
            Token::EOF,
        ],
    );
    assert_tokens(
        "a\rb",
        &[
            Token::Ident(String::from("a")),
            Token::Ident(String::from("b")),
            Token::EOF,
        ],
    );
    assert_tokens("\r\n", &[Token::EOF]);
}

#[test]
fn peek_reads_one_ahead_without_consuming() {
    let mut lexer = Lexer::new(String::from("ab")).unwrap();
    assert_eq!(lexer.peek(), Some('b'));
    assert_eq!(lexer.peek(), Some('b'));
    let mut single = Lexer::new(String::from("a")).unwrap();
    assert_eq!(single.peek(), None);
}

#[test]
fn skip_chars_reports_amount_actually_skipped() {
    let mut lexer = Lexer::new(String::from("abc def")).unwrap();
    assert_eq!(lexer.skip_chars(4), 4);
    assert_eq!(lexer.next_token(), Some(Token::Ident(String::from("def"))));

    let mut short = Lexer::new(String::from("ab")).unwrap();
    assert_eq!(short.skip_chars(5), 2);
    assert_eq!(short.next_token(), Some(Token::EOF));
}

#[test]
fn character_classes() {
    assert!(Lexer::is_valid('a'));
    assert!(Lexer::is_valid('Z'));
    assert!(Lexer::is_valid('0'));
    assert!(Lexer::is_valid('_'));
    assert!(!Lexer::is_valid('-'));
    assert!(!Lexer::is_valid(' '));
    assert!(Lexer::is_ascii_whitespace(' '));
    assert!(Lexer::is_ascii_whitespace('\t'));
    assert!(Lexer::is_ascii_whitespace('\n'));
    assert!(!Lexer::is_ascii_whitespace('a'));
}

#[test]
fn tokenize_collects_whole_sequence() {
    let mut lexer = Lexer::new(String::from("let x = 5;")).unwrap();
    let tokens = lexer.tokenize();
    assert_eq!(
        tokens,
        vec![
            Token::Let,
            Token::Ident(String::from("x")),
            Token::Assign,
            Token::Int(5),
            Token::Semicolon,
            Token::EOF,
        ]
    );
    assert!(lexer.next_token().is_none());
}
