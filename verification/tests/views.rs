use toklex::{lex, Span, TextPos, TokenKind, TokensBuf};

fn tp(p: usize) -> TextPos {
    TextPos { col: p, line: 0, byte: p }
}

fn sample<'s>() -> TokensBuf<'s> {
    // " a b " lexes to [Whitespace, Ident, Whitespace, Ident, Whitespace].
    lex(" a b ", &[]).unwrap()
}

#[test]
fn test_borrow() {
    let buf = sample();
    let view = buf.borrow();
    assert_eq!(view.tokens.len(), 5);
    assert_eq!(view.end, tp(5));
}

#[test]
fn test_range() {
    let buf = sample();
    let view = buf.borrow();
    let r = view.range(1, 3);
    assert_eq!(r.tokens.len(), 2);
    assert!(matches!(r.tokens[0].kind, TokenKind::Ident("a")));
    // The end is the start of the first token after the range.
    assert_eq!(r.end, tp(3));
    // A range reaching the last token takes the view's own end.
    let r = view.range(3, 5);
    assert_eq!(r.end, tp(5));
}

#[test]
fn test_range_from() {
    let buf = sample();
    let view = buf.borrow();
    let r = view.range_from(2);
    assert_eq!(r.tokens.len(), 3);
    assert_eq!(r.end, tp(5));
    assert!(matches!(r.tokens[0].kind, TokenKind::Whitespace(" ")));
}

#[test]
fn test_split_around() {
    let buf = sample();
    let view = buf.borrow();
    let (l, r) = view.split_around(2);
    assert_eq!(l.tokens.len(), 2);
    assert_eq!(l.end, tp(2));
    assert_eq!(r.tokens.len(), 2);
    assert_eq!(r.end, tp(5));
}

#[test]
fn test_trim_whitespace() {
    let buf = sample();
    let view = buf.borrow();
    let t = view.trim_whitespace();
    assert_eq!(t.tokens.len(), 3);
    assert!(matches!(t.tokens[0].kind, TokenKind::Ident("a")));
    assert!(matches!(t.tokens[2].kind, TokenKind::Ident("b")));
    // The trimmed view ends at the start of the trailing whitespace.
    assert_eq!(t.end, tp(4));
}

#[test]
fn test_trim_whitespace_all_ws() {
    let buf = lex("  \t ", &[]).unwrap();
    let view = buf.borrow();
    let t = view.trim_whitespace();
    assert_eq!(t.tokens.len(), 0);
    assert_eq!(t.end, view.end);
}

#[test]
fn test_span() {
    let buf = sample();
    let view = buf.borrow();
    assert_eq!(view.span(), Span { start: tp(0), end: tp(5) });
    let empty = view.range(2, 2);
    assert_eq!(empty.span(), Span { start: empty.end, end: empty.end });
}

#[test]
fn test_token_is_whitespace() {
    let buf = sample();
    assert!(buf.tokens[0].is_whitespace());
    assert!(!buf.tokens[1].is_whitespace());
}

#[test]
fn test_clone_token_tree() {
    let buf = lex("(a \"b\\n\")", &[]).unwrap();
    let copy = buf.clone();
    assert_eq!(copy, buf);
}

#[test]
fn test_textpos_next() {
    let start = TextPos::start();
    assert_eq!(start, tp(0));
    let (c, p) = start.next("ab").unwrap();
    assert_eq!(c, 'a');
    assert_eq!(p, tp(1));
    let (c, p) = p.next("ab").unwrap();
    assert_eq!(c, 'b');
    assert_eq!(p, tp(2));
    assert_eq!(p.next("ab"), None);
    // A two-byte character advances the byte offset by two and the
    // column by one.
    let (c, p) = TextPos::start().next("\u{e9}").unwrap();
    assert_eq!(c, '\u{e9}');
    assert_eq!(p, TextPos { col: 1, line: 0, byte: 2 });
    // A line feed starts a new line.
    let (c, p) = TextPos::start().next("\nx").unwrap();
    assert_eq!(c, '\n');
    assert_eq!(p, TextPos { col: 0, line: 1, byte: 1 });
}
