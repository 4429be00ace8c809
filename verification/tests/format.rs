use fwtype::{parse_line, Row, Token, TokenKind};

#[test]
fn token_kinds_render_with_their_tags() {
    assert_eq!(TokenKind::Ascii("a".to_string()).fmt(), "a\"a\"");
    assert_eq!(TokenKind::Misc("中".to_string()).fmt(), "m\"中\"");
    assert_eq!(TokenKind::Hole("Q".to_string()).fmt(), "h\"Q\"");
    assert_eq!(TokenKind::Skip.fmt(), "skip");
    // the quoting escapes, it does not echo the payload
    assert_eq!(TokenKind::Escape("\u{1b}[31m".to_string()).fmt(), "e\"\\u{1b}[31m\"");
    assert_eq!(TokenKind::Ascii("\"".to_string()).fmt(), "a\"\\\"\"");
}

#[test]
fn tokens_render_kind_then_width() {
    let tk = Token {
        kind: TokenKind::Ascii("x".to_string()),
        width: 1,
    };
    assert_eq!(tk.fmt(), "a\"x\"1");
    let tk = Token {
        kind: TokenKind::Skip,
        width: 13,
    };
    assert_eq!(tk.fmt(), "skip13");
    let tk = Token {
        kind: TokenKind::_Nop,
        width: -2,
    };
    assert_eq!(tk.fmt(), "nop-2");
}

#[test]
fn rows_render_number_width_mark_and_tokens() {
    let rows = parse_line("AB", 8, 80);
    let row = rows.into_iter().next().unwrap();
    assert_eq!(row.fmt(), "   -1:2   . a\"A\"1 a\"B\"1");
    let mut rows = parse_line("AB", 8, 1);
    let first = rows.remove(0);
    assert_eq!(first.fmt(), "   -1:1   * a\"A\"1");
}

#[test]
fn clear_resets_a_row() {
    let mut rows = parse_line("abc", 8, 80);
    let mut row = rows.remove(0);
    row.lineno = 7;
    row.clear();
    assert_eq!(row.lineno, -1);
    assert_eq!(row.width, -1);
    assert!(!row.setret);
    assert!(row.tokens.is_empty());
    assert_eq!(row.fmt(), "   -1:-1  . ");
}

#[test]
fn wide_numbers_overflow_their_padding() {
    let row = Row {
        lineno: 123456,
        width: 1000,
        setret: false,
        tokens: Vec::new(),
    };
    assert_eq!(row.fmt(), "123456:1000 . ");
}
