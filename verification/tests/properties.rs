use genzlang::lex::{tokenize, tokenize_spanned, LexError};
use genzlang::repl::start;
use genzlang::stream::TokenStream;
use genzlang::Token;

fn lex(input: &str) -> Vec<Token> {
    tokenize(input).expect("input should tokenize cleanly")
}

#[test]
fn every_keyword_spelling_classifies() {
    // Every spelling of the grammar table, in isolation, is exactly one
    // token of its keyword's kind — never an identifier.
    let table: Vec<(&str, Token)> = vec![
        ("cap", Token::Bool(false)),
        ("nocap", Token::Bool(true)),
        ("be", Token::Assign),
        ("felloff", Token::LessThan),
        ("flexin", Token::GreaterThan),
        ("flex on", Token::GreaterThan),
        ("do be", Token::Equal),
        ("do not be", Token::NotEqual),
        ("not", Token::Not),
        ("and", Token::And),
        ("or", Token::Or),
        ("rn", Token::StmtEnd),
        ("lowkey", Token::ScopeStart),
        ("bet", Token::ScopeEnd),
        ("ngl", Token::VarDecl),
        ("finna", Token::FnDecl),
        ("fr", Token::If),
        ("cope", Token::Else),
        ("+", Token::Plus),
        ("-", Token::Minus),
        ("*", Token::Asterisk),
        ("/", Token::Slash),
        ("<", Token::LessThan),
        (">", Token::GreaterThan),
        (",", Token::Comma),
    ];
    for (spelling, token) in table {
        let toks = lex(spelling);
        assert_eq!(toks, vec![token], "spelling: {:?}", spelling);
        assert!(
            !matches!(toks[0], Token::Ident(_)),
            "keyword lexed as identifier: {:?}",
            spelling
        );
    }
}

#[test]
fn multi_word_keywords_are_single_tokens() {
    // Never two adjacent tokens that happen to parse compatibly.
    assert_eq!(lex("do be"), vec![Token::Equal]);
    assert_eq!(lex("do not be"), vec![Token::NotEqual]);
    assert_eq!(lex("flex on"), vec![Token::GreaterThan]);
    // A word sequence that completes no multi-word spelling falls back to
    // its individual words.
    assert_eq!(
        lex("do it"),
        vec![Token::Ident("do".into()), Token::Ident("it".into())]
    );
    assert_eq!(
        lex("do not it"),
        vec![
            Token::Ident("do".into()),
            Token::Not,
            Token::Ident("it".into())
        ]
    );
    assert_eq!(
        lex("flex off"),
        vec![Token::Ident("flex".into()), Token::Ident("off".into())]
    );
}

#[test]
fn quote_independence() {
    assert_eq!(lex("\"a'b\""), vec![Token::Str("a'b".into())]);
    assert_eq!(lex("'a\"b'"), vec![Token::Str("a\"b".into())]);
}

#[test]
fn tokenizing_is_deterministic() {
    let input = "ngl x be \"a b\" rn do not be 42";
    assert_eq!(tokenize(input), tokenize(input));

    let mut first = TokenStream::new(input);
    let mut second = TokenStream::new(input);
    loop {
        let a = first.next();
        let b = second.next();
        assert_eq!(a, b);
        if a.is_none() {
            break;
        }
    }
}

#[test]
fn whitespace_between_tokens_is_insensitive() {
    let plain = lex("ngl x be 5 rn");
    assert_eq!(lex("  ngl x be 5 rn"), plain);
    assert_eq!(lex("ngl \t x \r\n be \n\n 5 \t rn   "), plain);
    assert_eq!(lex("\nngl\nx\nbe\n5\nrn\n"), plain);

    // The gaps inside a multi-word keyword may widen too.
    assert_eq!(lex("do \t\n be"), vec![Token::Equal]);
    assert_eq!(lex("do  not \n be"), vec![Token::NotEqual]);

    // Whitespace inside a string literal is part of its value, not a gap.
    assert_ne!(lex("' a'"), lex("'a'"));
}

#[test]
fn malformed_lexemes_surface() {
    // An unterminated string literal is an error at its opening quote, not
    // a silently truncated or skipped stream.
    assert_eq!(tokenize("\"unterminated"), Err(LexError { pos: 0 }));
    assert_eq!(tokenize("'missing"), Err(LexError { pos: 0 }));
    // A character matching no rule is an error at its position.
    assert_eq!(tokenize("ngl x ~"), Err(LexError { pos: 6 }));
    // An integer literal too large for the fixed width is a scan failure,
    // not a wraparound.
    assert_eq!(lex("2147483647"), vec![Token::Int(2147483647)]);
    assert_eq!(tokenize("2147483648"), Err(LexError { pos: 0 }));
    assert_eq!(tokenize("99999999999999999999"), Err(LexError { pos: 0 }));

    // The stream yields the tokens before the error, then the error itself,
    // and never advances past it.
    let mut stream = TokenStream::new("ngl ~");
    assert_eq!(stream.next(), Some(Ok(Token::VarDecl)));
    assert_eq!(stream.next(), Some(Err(LexError { pos: 4 })));
    assert_eq!(stream.next(), Some(Err(LexError { pos: 4 })));
}

#[test]
fn stream_lookahead_does_not_consume() {
    let mut stream = TokenStream::new("ngl x");
    assert_eq!(stream.peek(), Some(Ok(Token::VarDecl)));
    assert_eq!(stream.peek(), Some(Ok(Token::VarDecl)));
    assert_eq!(stream.next(), Some(Ok(Token::VarDecl)));
    assert_eq!(stream.peek(), Some(Ok(Token::Ident("x".into()))));
    assert_eq!(stream.next(), Some(Ok(Token::Ident("x".into()))));
    assert_eq!(stream.peek(), None);
    assert_eq!(stream.next(), None);
}

#[test]
fn repl_step_decides() {
    assert!(start("exit\n").is_none());
    assert_eq!(
        start("cap nocap\n"),
        Some(Ok(vec![Token::Bool(false), Token::Bool(true)]))
    );
    // Only the exact quit line ends the session.
    assert_eq!(start("exit"), Some(Ok(vec![Token::Ident("exit".into())])));
    assert_eq!(start("`\n"), Some(Err(LexError { pos: 0 })));
}

#[test]
fn spans_cover_exact_matches() {
    let spanned = tokenize_spanned("ngl x be 'a b' rn").unwrap();
    assert_eq!(
        spanned,
        vec![
            (Token::VarDecl, 0, 3),
            (Token::Ident("x".into()), 4, 5),
            (Token::Assign, 6, 8),
            (Token::Str("a b".into()), 9, 14),
            (Token::StmtEnd, 15, 17),
        ]
    );
    // A multi-word keyword's span covers all its words, the gaps included.
    assert_eq!(tokenize_spanned("do  be").unwrap(), vec![(Token::Equal, 0, 6)]);
    assert_eq!(tokenize_spanned("\"unterminated"), Err(LexError { pos: 0 }));
}
