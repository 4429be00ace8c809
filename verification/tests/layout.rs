use fwtype::{parse_line, Row, Token, TokenKind};

fn ascii_payload(tk: &Token) -> &str {
    match &tk.kind {
        TokenKind::Ascii(s) => s.as_str(),
        _ => panic!("expected an Ascii token"),
    }
}

fn width_sum(row: &Row) -> isize {
    row.tokens.iter().map(|t| t.width).sum()
}

#[test]
fn scenario_two_letters_wrap_at_one() {
    // "AB" at wrap column 1: each letter lands on its own row, the first
    // row closed by the wrap.
    let rows = parse_line("AB", 8, 1);
    assert_eq!(rows.len(), 2);
    assert_eq!(rows[0].tokens.len(), 1);
    assert_eq!(ascii_payload(&rows[0].tokens[0]), "A");
    assert_eq!(rows[0].tokens[0].width, 1);
    assert!(rows[0].setret);
    assert_eq!(rows[1].tokens.len(), 1);
    assert_eq!(ascii_payload(&rows[1].tokens[0]), "B");
    assert_eq!(rows[1].tokens[0].width, 1);
    assert!(!rows[1].setret);
}

#[test]
fn scenario_tab_then_letter() {
    // "\tX" with tab stop 4: a skip of four cells, then the letter.
    let rows = parse_line("\tX", 4, 80);
    assert_eq!(rows.len(), 1);
    let row = &rows[0];
    assert_eq!(row.tokens.len(), 2);
    assert!(matches!(row.tokens[0].kind, TokenKind::Skip));
    assert_eq!(row.tokens[0].width, 4);
    assert_eq!(ascii_payload(&row.tokens[1]), "X");
    assert_eq!(row.tokens[1].width, 1);
    assert_eq!(row.width, 5);
}

#[test]
fn every_row_width_is_the_token_width_sum() {
    for line in ["", "hello world", "a\tb\tc", "wide 中 mix", "\u{1b}[31mred"] {
        for wrap in [1, 3, 80] {
            let rows = parse_line(line, 8, wrap);
            assert!(!rows.is_empty());
            for row in &rows {
                assert_eq!(row.width, width_sum(row));
            }
        }
    }
}

#[test]
fn wrapping_preserves_token_order_and_count() {
    // the same line, wrapped narrow and not at all, carries the same
    // token sequence
    let line = "abcdefgh";
    let flat = parse_line(line, 8, 100);
    let wrapped = parse_line(line, 8, 3);
    let flat_tokens: Vec<String> = flat
        .iter()
        .flat_map(|r| r.tokens.iter().map(|t| t.fmt()))
        .collect();
    let wrapped_tokens: Vec<String> = wrapped
        .iter()
        .flat_map(|r| r.tokens.iter().map(|t| t.fmt()))
        .collect();
    assert_eq!(flat_tokens, wrapped_tokens);
    assert_eq!(wrapped.len(), 3);
    for row in &wrapped[..2] {
        assert!(row.setret);
    }
    assert!(!wrapped[2].setret);
}

#[test]
fn tab_skip_lands_on_the_next_stop() {
    // after "ab" the column is 2, so the tab advances 2 cells to stop 4;
    // the skip is never zero and never more than one whole stop
    let rows = parse_line("ab\tc", 4, 80);
    let row = &rows[0];
    assert!(matches!(row.tokens[2].kind, TokenKind::Skip));
    assert_eq!(row.tokens[2].width, 2);
    // a tab at an exact stop advances a whole stop
    let rows = parse_line("abcd\te", 4, 80);
    assert_eq!(rows[0].tokens[4].width, 4);
}

#[test]
fn wrapped_row_could_not_hold_the_next_token() {
    let rows = parse_line("abcdef", 8, 4);
    assert_eq!(rows.len(), 2);
    assert!(rows[0].setret);
    let next_width = rows[1].tokens[0].width;
    assert!(rows[0].width + next_width > 4);
}

#[test]
fn oversized_token_still_gets_a_row() {
    // wrap column 1 cannot hold a double-width character, but the token is
    // never split and never loops: it stands alone on its row
    let rows = parse_line("中中", 8, 1);
    assert_eq!(rows.len(), 2);
    assert_eq!(rows[0].tokens.len(), 1);
    assert_eq!(rows[0].tokens[0].width, 2);
    assert!(matches!(rows[0].tokens[0].kind, TokenKind::Misc(_)));
    assert!(rows[0].setret);
    assert_eq!(rows[1].tokens.len(), 1);
    assert!(!rows[1].setret);
}

#[test]
fn empty_line_yields_one_empty_row() {
    let rows = parse_line("", 8, 80);
    assert_eq!(rows.len(), 1);
    assert!(rows[0].tokens.is_empty());
    assert_eq!(rows[0].width, 0);
    assert!(!rows[0].setret);
    assert_eq!(rows[0].lineno, -1);
}

#[test]
fn escape_sequence_is_one_token_of_width_one() {
    // the whole ANSI sequence up to and including the 'm' cluster is one
    // Escape token budgeted a single cell, never rendered wider
    let rows = parse_line("\u{1b}[31mRD", 8, 80);
    let row = &rows[0];
    assert_eq!(row.tokens.len(), 3);
    match &row.tokens[0].kind {
        TokenKind::Escape(s) => assert_eq!(s.as_str(), "\u{1b}[31m"),
        _ => panic!("expected an Escape token"),
    }
    assert_eq!(row.tokens[0].width, 1);
    assert_eq!(row.width, 3);
}

#[test]
fn unterminated_escape_runs_to_end_of_line() {
    let rows = parse_line("\u{1b}[31", 8, 80);
    let row = &rows[0];
    assert_eq!(row.tokens.len(), 1);
    match &row.tokens[0].kind {
        TokenKind::Escape(s) => assert_eq!(s.as_str(), "\u{1b}[31"),
        _ => panic!("expected an Escape token"),
    }
}

#[test]
fn group_separator_takes_the_next_cluster_as_label() {
    let rows = parse_line("a\u{1d}Qb", 8, 80);
    let row = &rows[0];
    assert_eq!(row.tokens.len(), 3);
    match &row.tokens[1].kind {
        TokenKind::Hole(s) => assert_eq!(s.as_str(), "Q"),
        _ => panic!("expected a Hole token"),
    }
    assert_eq!(row.tokens[1].width, 4);
}

#[test]
fn group_separator_at_end_of_line_is_dropped() {
    let rows = parse_line("ab\u{1d}", 8, 80);
    assert_eq!(rows.len(), 1);
    assert_eq!(rows[0].tokens.len(), 2);
    let rows = parse_line("\u{1d}", 8, 80);
    assert_eq!(rows.len(), 1);
    assert!(rows[0].tokens.is_empty());
}

#[test]
fn graphemes_split_per_cluster_not_per_string() {
    // each letter is its own token; a combining sequence stays one token
    let rows = parse_line("ab", 8, 80);
    assert_eq!(rows[0].tokens.len(), 2);
    let rows = parse_line("e\u{301}x", 8, 80);
    assert_eq!(rows[0].tokens.len(), 2);
    match &rows[0].tokens[0].kind {
        TokenKind::Misc(s) => assert_eq!(s.as_str(), "e\u{301}"),
        _ => panic!("expected a Misc token"),
    }
}
