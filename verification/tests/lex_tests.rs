use rune::lex::{Lexer, Token};

fn collect_tokens(input: &str) -> Vec<Token<'_>> {
    let mut lexer = Lexer::new(input);
    let mut out = Vec::new();
    loop {
        match lexer.next() {
            Some(tok) => out.push(tok),
            None => break,
        }
    }
    out
}

#[test]
fn size() {
    assert_eq!(24, std::mem::size_of::<Token>());
}

#[test]
fn symbols() {
    let symbols: Vec<Token> = collect_tokens("(foo (bar) baz 'word) bob");

    let golden = vec![
        Token::OpenParen("("),
        Token::Symbol("foo"),
        Token::OpenParen("("),
        Token::Symbol("bar"),
        Token::CloseParen(")"),
        Token::Symbol("baz"),
        Token::Quote("'"),
        Token::Symbol("word"),
        Token::CloseParen(")"),
        Token::Symbol("bob"),
    ];

    assert_eq!(golden, symbols);
}

#[test]
fn lex_string() {
    let symbols: Vec<Token> = collect_tokens(r#"before "string with \" stuff" after"#);
    let golden = vec![
        Token::Symbol("before"),
        Token::String(r#""string with \" stuff""#),
        Token::Symbol("after"),
    ];

    assert_eq!(golden, symbols);
}

#[test]
fn comments() {
    let symbols: Vec<Token> = collect_tokens("before ;; comment \n after");
    let golden = vec![Token::Symbol("before"), Token::Symbol("after")];
    assert_eq!(golden, symbols);
}

#[test]
fn numbers() {
    let symbols: Vec<Token> = collect_tokens("+1 1+ 8. -1 \\-1 .1 2.0 3.0.0 --1");
    let golden = vec![
        Token::Integer("+1"),
        Token::Symbol("1+"),
        Token::Float("8."),
        Token::Integer("-1"),
        Token::Symbol("\\-1"),
        Token::Float(".1"),
        Token::Float("2.0"),
        Token::Symbol("3.0.0"),
        Token::Symbol("--1"),
    ];
    assert_eq!(golden, symbols);
}

#[test]
fn token_length_is_byte_length() {
    let toks = collect_tokens("foo \"ab\"");
    assert_eq!(toks[0].len(), 3);
    assert_eq!(toks[1].len(), 4);
    assert_eq!(toks[0].inner(), "foo");
}

#[test]
fn lexable_rejects_stray_reader_characters() {
    let lexer = Lexer::new("foo bar");
    assert!(lexer.lexable());
    let done = Lexer::new("   ; only a comment");
    assert!(done.lexable());
    for bad in ["[x]", "#tag", ", splice", "]"] {
        let stuck = Lexer::new(bad);
        assert!(!stuck.lexable());
    }
}
