use genzlang::lex::{tokenize, LexError};
use genzlang::stream::TokenStream;
use genzlang::Token;

fn lex(input: &str) -> Vec<Token> {
    tokenize(input).expect("input should tokenize cleanly")
}

#[test]
fn lib_test_syntax() {
    let input = r#"
            ngl foo be 5 rn
            ngl bar be "hello" rn

            finna add x, y be lowkey
                x + y
            bet

            ngl baz be add foo, 5 rn

            fr baz flexin or do be 10 lowkey
                go_off bar rn
            cope
                go_off "sheesh" rn
            bet
        "#;

    let expected = vec![
        Token::VarDecl,
        Token::Ident("foo".into()),
        Token::Assign,
        Token::Int(5),
        Token::StmtEnd,
        Token::VarDecl,
        Token::Ident("bar".into()),
        Token::Assign,
        Token::Str("hello".into()),
        Token::StmtEnd,
        Token::FnDecl,
        Token::Ident("add".into()),
        Token::Ident("x".into()),
        Token::Comma,
        Token::Ident("y".into()),
        Token::Assign,
        Token::ScopeStart,
        Token::Ident("x".into()),
        Token::Plus,
        Token::Ident("y".into()),
        Token::ScopeEnd,
        Token::VarDecl,
        Token::Ident("baz".into()),
        Token::Assign,
        Token::Ident("add".into()),
        Token::Ident("foo".into()),
        Token::Comma,
        Token::Int(5),
        Token::StmtEnd,
        Token::If,
        Token::Ident("baz".into()),
        Token::GreaterThan,
        Token::Or,
        Token::Equal,
        Token::Int(10),
        Token::ScopeStart,
        Token::Ident("go_off".into()),
        Token::Ident("bar".into()),
        Token::StmtEnd,
        Token::Else,
        Token::Ident("go_off".into()),
        Token::Str("sheesh".into()),
        Token::StmtEnd,
        Token::ScopeEnd,
    ];

    assert_eq!(lex(input), expected);
}

#[test]
fn lib_test_strings() {
    let input = r#"
            "hello" 'hello' "'hello'" '"hello"'
        "#;

    let expected = vec![
        Token::Str("hello".into()),
        Token::Str("hello".into()),
        Token::Str("'hello'".into()),
        Token::Str(r#""hello""#.into()),
    ];

    assert_eq!(lex(input), expected);
}

#[test]
fn lib_test_bools() {
    let input = "cap nocap";

    let expected = vec![Token::Bool(false), Token::Bool(true)];

    assert_eq!(lex(input), expected);
}

#[test]
fn test_stream() {
    let input = r#"
            ngl foo be 5 rn
            ngl bar be "hello" rn

            finna add x, y be lowkey
                x + y
            bet

            ngl baz be add foo, 5 rn

            fr baz flex on or do be 10 lowkey
                go_off bar rn
            cope
                go_off "sheesh" rn
            bet
        "#;

    let expected = vec![
        Token::VarDecl,
        Token::Ident("foo".into()),
        Token::Assign,
        Token::Int(5),
        Token::StmtEnd,
        Token::VarDecl,
        Token::Ident("bar".into()),
        Token::Assign,
        Token::Str("hello".into()),
        Token::StmtEnd,
        Token::FnDecl,
        Token::Ident("add".into()),
        Token::Ident("x".into()),
        Token::Comma,
        Token::Ident("y".into()),
        Token::Assign,
        Token::ScopeStart,
        Token::Ident("x".into()),
        Token::Plus,
        Token::Ident("y".into()),
        Token::ScopeEnd,
        Token::VarDecl,
        Token::Ident("baz".into()),
        Token::Assign,
        Token::Ident("add".into()),
        Token::Ident("foo".into()),
        Token::Comma,
        Token::Int(5),
        Token::StmtEnd,
        Token::If,
        Token::Ident("baz".into()),
        Token::GreaterThan,
        Token::Or,
        Token::Equal,
        Token::Int(10),
        Token::ScopeStart,
        Token::Ident("go_off".into()),
        Token::Ident("bar".into()),
        Token::StmtEnd,
        Token::Else,
        Token::Ident("go_off".into()),
        Token::Str("sheesh".into()),
        Token::StmtEnd,
        Token::ScopeEnd,
    ];

    let mut stream = TokenStream::new(input);
    let mut collected = Vec::new();
    while let Some(item) = stream.next() {
        collected.push(item.expect("no lexical error in this input"));
    }

    assert_eq!(collected, expected);
}

#[test]
fn test_idents() {
    let input = "
            snake_case
            camelCase
            PascalCase
        ";

    let expected = vec![
        Token::Ident("snake_case".into()),
        Token::Ident("camelCase".into()),
        Token::Ident("PascalCase".into()),
    ];

    assert_eq!(lex(input), expected);
}

#[test]
fn token_test_strings() {
    let input = r#"
            "fr" 'cap' "'lowkey'" '"flex on"'
        "#;

    let expected = vec![
        Token::Str("fr".into()),
        Token::Str("cap".into()),
        Token::Str("'lowkey'".into()),
        Token::Str(r#""flex on""#.into()),
    ];

    assert_eq!(lex(input), expected);
}

#[test]
fn test_ints() {
    let input = "
            5
            10
            2345987
        ";

    let expected = vec![Token::Int(5), Token::Int(10), Token::Int(2345987)];

    assert_eq!(lex(input), expected);
}

#[test]
fn token_test_bools() {
    let input = "
            cap
            nocap
        ";

    let expected = vec![Token::Bool(false), Token::Bool(true)];

    assert_eq!(lex(input), expected);
}

#[test]
fn test_int_token() {
    let input = "
            69
            420
        ";

    let expected = vec![Token::Int(69), Token::Int(420)];

    assert_eq!(lex(input), expected);
}

#[test]
fn test_bool_token() {
    let input = "
            cap
            nocap
        ";

    let expected = vec![Token::Bool(false), Token::Bool(true)];

    assert_eq!(lex(input), expected);
}

#[test]
fn test_str_token() {
    let input = r#"
            "hello"
            'hello'
        "#;

    let expected = vec![Token::Str("hello".into()), Token::Str("hello".into())];

    assert_eq!(lex(input), expected);
}

#[test]
fn test_valid_ident_token() {
    let valid_idents = r#"
            foo
            snake_case
            camelCase
            PascalCase
            snake_case2
        "#;

    // Identifiers are runs of letters and underscores; a digit ends the
    // word, so the trailing `2` is its own integer literal.
    let expected = vec![
        Token::Ident("foo".into()),
        Token::Ident("snake_case".into()),
        Token::Ident("camelCase".into()),
        Token::Ident("PascalCase".into()),
        Token::Ident("snake_case".into()),
        Token::Int(2),
    ];

    assert_eq!(lex(valid_idents), expected);
}

#[test]
fn test_invalid_ident_token() {
    // Characters with no rule of their own are lexical errors right after
    // the identifier...
    let invalid = vec![
        "foo!", "foo@", "foo#", "foo$", "foo%", "foo^", "foo&", "foo(", "foo)", "foo[", "foo]",
        "foo{", "foo}", "foo|", "foo=", "foo?", "foo~", "foo`", "foo.", "foo;", "foo:", "foo\\",
    ];
    for input in invalid {
        assert_eq!(tokenize(input), Err(LexError { pos: 3 }), "input: {}", input);
    }

    // ...while the single-character operators and delimiters of the grammar
    // tokenize as themselves.
    let operators = vec![
        ("foo*", Token::Asterisk),
        ("foo+", Token::Plus),
        ("foo-", Token::Minus),
        ("foo/", Token::Slash),
        ("foo<", Token::LessThan),
        ("foo>", Token::GreaterThan),
        ("foo,", Token::Comma),
    ];
    for (input, op) in operators {
        assert_eq!(lex(input), vec![Token::Ident("foo".into()), op], "input: {}", input);
    }
}

#[test]
fn test_keyword_tokens() {
    let input = "
            ngl
            be
            rn
            finna
            fr
            cope
            lowkey
            bet
        ";

    let expected = vec![
        Token::VarDecl,
        Token::Assign,
        Token::StmtEnd,
        Token::FnDecl,
        Token::If,
        Token::Else,
        Token::ScopeStart,
        Token::ScopeEnd,
    ];

    assert_eq!(lex(input), expected);
}

#[test]
fn token_test_syntax() {
    let input = r#"
            ngl foo be 5 rn
            ngl bar be "cap" rn
            ngl baz be cap rn
        "#;

    let expected = vec![
        Token::VarDecl,
        Token::Ident("foo".into()),
        Token::Assign,
        Token::Int(5),
        Token::StmtEnd,
        Token::VarDecl,
        Token::Ident("bar".into()),
        Token::Assign,
        Token::Str("cap".into()),
        Token::StmtEnd,
        Token::VarDecl,
        Token::Ident("baz".into()),
        Token::Assign,
        Token::Bool(false),
        Token::StmtEnd,
    ];

    assert_eq!(lex(input), expected);
}
