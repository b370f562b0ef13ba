use toklex::{lex, LexError, StrText, TextPos, Token, TokenKind, TokensBuf};

fn tp(p: usize) -> TextPos {
    TextPos { col: p, line: 0, byte: p }
}

#[test]
fn test() {
    let symbols = ["!@#", "$%^"];
    let src = r#"()[{}] "wow\"\t\n\x23""floo"  !@#$%^hello_123"#;
    let tokens_buf = lex(src, &symbols).unwrap();
    assert_eq!(
        tokens_buf,
        TokensBuf {
            tokens: vec![
                Token {
                    kind: TokenKind::Bracket('(', TokensBuf { tokens: vec![], end: tp(1) }),
                    start: tp(0),
                },
                Token {
                    kind: TokenKind::Bracket(
                        '[',
                        TokensBuf {
                            tokens: vec![Token {
                                kind: TokenKind::Bracket(
                                    '{',
                                    TokensBuf { tokens: vec![], end: tp(4) },
                                ),
                                start: tp(3),
                            }],
                            end: tp(5),
                        },
                    ),
                    start: tp(2),
                },
                Token { kind: TokenKind::Whitespace(" "), start: tp(6) },
                Token {
                    kind: TokenKind::StrLit(StrText::Owned(String::from("wow\"\t\n#"))),
                    start: tp(7),
                },
                Token { kind: TokenKind::StrLit(StrText::Borrowed("floo")), start: tp(22) },
                Token { kind: TokenKind::Whitespace("  "), start: tp(28) },
                Token { kind: TokenKind::Symbol("!@#"), start: tp(30) },
                Token { kind: TokenKind::Symbol("$%^"), start: tp(33) },
                Token { kind: TokenKind::Ident("hello_123"), start: tp(36) },
            ],
            end: tp(45),
        }
    );
}

#[test]
fn test_errors() {
    let src = "{]";
    let err = lex(src, &[]).unwrap_err();
    assert_eq!(err, LexError::InvalidClosingBracket { open_pos: tp(0), close_pos: tp(1) });

    let src = "[";
    let err = lex(src, &[]).unwrap_err();
    assert_eq!(err, LexError::UnclosedBracket { open_pos: tp(0) });

    let src = "#";
    let err = lex(src, &[]).unwrap_err();
    assert_eq!(err, LexError::UnexpectedChar { pos: tp(0), c: '#' });

    let src = "]";
    let err = lex(src, &[]).unwrap_err();
    assert_eq!(err, LexError::UnexpectedClosingBracket { pos: tp(0), c: ']' });

    let src = "\"";
    let err = lex(src, &[]).unwrap_err();
    assert_eq!(err, LexError::UnclosedString { start_pos: tp(0) });

    let src = r"'\x2g'";
    let err = lex(src, &[]).unwrap_err();
    assert_eq!(err, LexError::InvalidEscapeDigit { c: 'g', pos: tp(4) });

    let src = r"'\u{110000}'";
    let err = lex(src, &[]).unwrap_err();
    assert_eq!(err, LexError::InvalidEscapeChar { c: 'u', pos: tp(2) });

    let src = r"'\q'";
    let err = lex(src, &[]).unwrap_err();
    assert_eq!(err, LexError::InvalidEscapeChar { c: 'q', pos: tp(2) });

    let src = r"'\u{123456789}'";
    let err = lex(src, &[]).unwrap_err();
    assert_eq!(err, LexError::InvalidEscapeChar { c: 'u', pos: tp(2) });

    let src = r"'\u123'";
    let err = lex(src, &[]).unwrap_err();
    assert_eq!(err, LexError::InvalidEscapeChar { c: 'u', pos: tp(2) });
}

#[test]
fn test_brackets_and_whitespace() {
    let src = "()[{}] ";
    let tokens_buf = lex(src, &[]).unwrap();
    assert_eq!(
        tokens_buf,
        TokensBuf {
            tokens: vec![
                Token {
                    kind: TokenKind::Bracket('(', TokensBuf { tokens: vec![], end: tp(1) }),
                    start: tp(0),
                },
                Token {
                    kind: TokenKind::Bracket(
                        '[',
                        TokensBuf {
                            tokens: vec![Token {
                                kind: TokenKind::Bracket(
                                    '{',
                                    TokensBuf { tokens: vec![], end: tp(4) },
                                ),
                                start: tp(3),
                            }],
                            end: tp(5),
                        },
                    ),
                    start: tp(2),
                },
                Token { kind: TokenKind::Whitespace(" "), start: tp(6) },
            ],
            end: tp(7),
        }
    );
}

#[test]
fn test_string_escapes() {
    let src = r#""wow\"\t\n\x41""#;
    let tokens_buf = lex(src, &[]).unwrap();
    assert_eq!(tokens_buf.tokens.len(), 1);
    assert_eq!(
        tokens_buf.tokens[0],
        Token { kind: TokenKind::StrLit(StrText::Owned(String::from("wow\"\t\nA"))), start: tp(0) }
    );
}

#[test]
fn test_simple_escapes() {
    let src = r#""\n\t\r\\\'\"\0""#;
    let tokens_buf = lex(src, &[]).unwrap();
    assert_eq!(
        tokens_buf.tokens[0],
        Token {
            kind: TokenKind::StrLit(StrText::Owned(String::from("\n\t\r\\'\"\0"))),
            start: tp(0),
        }
    );
}

#[test]
fn test_symbols_and_ident() {
    let symbols = ["!@#", "$%^"];
    let src = "!@#$%^hello_123";
    let tokens_buf = lex(src, &symbols).unwrap();
    assert_eq!(
        tokens_buf,
        TokensBuf {
            tokens: vec![
                Token { kind: TokenKind::Symbol("!@#"), start: tp(0) },
                Token { kind: TokenKind::Symbol("$%^"), start: tp(3) },
                Token { kind: TokenKind::Ident("hello_123"), start: tp(6) },
            ],
            end: tp(15),
        }
    );
}

#[test]
fn test_zero_copy() {
    // A literal without escapes borrows from the source; any escape
    // forces an owned decoded buffer.
    let tokens_buf = lex(r#""floo""#, &[]).unwrap();
    assert!(matches!(
        tokens_buf.tokens[0].kind,
        TokenKind::StrLit(StrText::Borrowed("floo"))
    ));
    let tokens_buf = lex(r#""f\too""#, &[]).unwrap();
    assert!(matches!(
        &tokens_buf.tokens[0].kind,
        TokenKind::StrLit(StrText::Owned(s)) if s == "f\too"
    ));
}

#[test]
fn test_unicode_escape_rejected() {
    // Only the seven single-character escapes and \xNN are recognised;
    // a backslash-u sequence is an invalid escape character.
    let src = r#"()[{}] "wow\"\t\n\x23""floo"  !@#$%^hello_123"\u{394}""#;
    let err = lex(src, &["!@#", "$%^"]).unwrap_err();
    assert_eq!(err, LexError::InvalidEscapeChar { c: 'u', pos: tp(47) });
}

#[test]
fn test_longest_symbol_match() {
    // The longest complete symbol wins; a shorter complete match is
    // remembered and used when the longer candidate fails.
    let symbols = ["+", "+="];
    let tokens_buf = lex("+=", &symbols).unwrap();
    assert_eq!(
        tokens_buf.tokens,
        vec![Token { kind: TokenKind::Symbol("+="), start: tp(0) }]
    );
    let tokens_buf = lex("+", &symbols).unwrap();
    assert_eq!(
        tokens_buf.tokens,
        vec![Token { kind: TokenKind::Symbol("+"), start: tp(0) }]
    );
}

#[test]
fn test_lex_invalid_table() {
    let symbols = ["-", "->", ">"];
    let err = lex("x", &symbols).unwrap_err();
    match err {
        LexError::InvalidSymbolTable(e) => {
            let first: String = e.first.concat();
            let second: String = e.second.concat();
            assert_eq!(first, second);
            assert_ne!(e.first, e.second);
        },
        other => panic!("expected an invalid symbol table error, got {:?}", other),
    }
}

#[test]
fn test_bracket_matching() {
    let tokens_buf = lex("()", &[]).unwrap();
    assert_eq!(
        tokens_buf.tokens,
        vec![Token {
            kind: TokenKind::Bracket('(', TokensBuf { tokens: vec![], end: tp(1) }),
            start: tp(0),
        }]
    );
    let err = lex("(]", &[]).unwrap_err();
    assert_eq!(err, LexError::InvalidClosingBracket { open_pos: tp(0), close_pos: tp(1) });
}

#[test]
fn test_wide_char_columns() {
    // A CJK ideograph is two columns wide and three UTF-8 bytes long.
    let src = "\u{4e2d} x";
    let tokens_buf = lex(src, &[]).unwrap();
    assert_eq!(
        tokens_buf,
        TokensBuf {
            tokens: vec![
                Token { kind: TokenKind::Ident("\u{4e2d}"), start: tp(0) },
                Token {
                    kind: TokenKind::Whitespace(" "),
                    start: TextPos { col: 2, line: 0, byte: 3 },
                },
                Token { kind: TokenKind::Ident("x"), start: TextPos { col: 3, line: 0, byte: 4 } },
            ],
            end: TextPos { col: 4, line: 0, byte: 5 },
        }
    );
}

#[test]
fn test_line_tracking() {
    let src = "a\nb";
    let tokens_buf = lex(src, &[]).unwrap();
    assert_eq!(
        tokens_buf,
        TokensBuf {
            tokens: vec![
                Token { kind: TokenKind::Ident("a"), start: tp(0) },
                Token {
                    kind: TokenKind::Whitespace("\n"),
                    start: TextPos { col: 1, line: 0, byte: 1 },
                },
                Token { kind: TokenKind::Ident("b"), start: TextPos { col: 0, line: 1, byte: 2 } },
            ],
            end: TextPos { col: 1, line: 1, byte: 3 },
        }
    );
}

#[test]
fn test_empty_input() {
    let tokens_buf = lex("", &[]).unwrap();
    assert_eq!(tokens_buf, TokensBuf { tokens: vec![], end: tp(0) });
}
