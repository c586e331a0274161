use genzlang::ast::{Expr, Node, Program, Stmt};
use genzlang::lex::LexError;
use genzlang::parse::{parse, Expected, ParseError, Parser};
use genzlang::Token;

#[test]
fn test_parse_ngl_stmt() {
    let input = r#"
            ngl foo be 5 rn
            ngl bar be "hello" rn
            ngl baz be cap rn
        "#;

    let mut parser = Parser::new(input);

    assert_eq!(
        parser.next_node().unwrap().unwrap(),
        Node::Stmt(Stmt::VarDecl("foo".into(), Expr::Int(5)))
    );
    assert_eq!(
        parser.next_node().unwrap().unwrap(),
        Node::Stmt(Stmt::VarDecl("bar".into(), Expr::Str("hello".into())))
    );
    assert_eq!(
        parser.next_node().unwrap().unwrap(),
        Node::Stmt(Stmt::VarDecl("baz".into(), Expr::Bool(false)))
    );
    assert!(parser.next_node().is_none());
}

#[test]
fn declaration_round_trip() {
    let program = parse("ngl x be 5 rn").unwrap();
    assert_eq!(
        program,
        Program(vec![Node::Stmt(Stmt::VarDecl("x".into(), Expr::Int(5)))])
    );

    // The trailing terminator may be absent at the end of the input.
    let program = parse("ngl y be \"hi\"").unwrap();
    assert_eq!(
        program,
        Program(vec![Node::Stmt(Stmt::VarDecl(
            "y".into(),
            Expr::Str("hi".into())
        ))])
    );
}

#[test]
fn missing_identifier_fails() {
    assert_eq!(
        parse("ngl be 5 rn"),
        Err(ParseError::UnexpectedToken {
            expected: Expected::Ident,
            found: Token::Assign,
        })
    );
}

#[test]
fn missing_assignment_fails() {
    assert_eq!(
        parse("ngl x 5 rn"),
        Err(ParseError::UnexpectedToken {
            expected: Expected::Assign,
            found: Token::Int(5),
        })
    );
}

#[test]
fn missing_expression_fails() {
    assert_eq!(
        parse("ngl x be"),
        Err(ParseError::UnexpectedEndOfInput {
            expected: Expected::Expression,
        })
    );
    assert_eq!(
        parse("ngl x be rn"),
        Err(ParseError::UnexpectedToken {
            expected: Expected::Expression,
            found: Token::StmtEnd,
        })
    );
}

#[test]
fn unsupported_construct_signaled() {
    // A reserved keyword with no parse rule yet is reported, not aborted on.
    assert_eq!(
        parse("fr"),
        Err(ParseError::UnsupportedConstruct { found: Token::If })
    );
    assert_eq!(
        parse("finna add x be lowkey bet"),
        Err(ParseError::UnsupportedConstruct { found: Token::FnDecl })
    );
    // Nodes before the unsupported construct were parsed; the whole parse
    // still reports the failure.
    assert_eq!(
        parse("ngl x be 5 rn fr"),
        Err(ParseError::UnsupportedConstruct { found: Token::If })
    );
}

#[test]
fn lexical_error_surfaces_in_parse() {
    assert_eq!(
        parse("ngl x be 5 rn ~"),
        Err(ParseError::Lex(LexError { pos: 14 }))
    );
}

#[test]
fn empty_input_is_empty_program() {
    assert_eq!(parse(""), Ok(Program(vec![])));
    assert_eq!(parse("  \t\n  "), Ok(Program(vec![])));
}

#[test]
fn multiple_declarations_in_order() {
    let program = parse("ngl a be 1 rn ngl b be nocap rn").unwrap();
    assert_eq!(
        program,
        Program(vec![
            Node::Stmt(Stmt::VarDecl("a".into(), Expr::Int(1))),
            Node::Stmt(Stmt::VarDecl("b".into(), Expr::Bool(true))),
        ])
    );
}
