//! Line tokenization with greedy wrapping: one logical input line becomes an
//! ordered sequence of rows. Tokens accumulate into an open row; a token
//! that would push the row past the wrap column closes the row with a
//! continuation mark and starts a fresh one with that token, so no token is
//! ever split. Every line yields at least one row, an empty line an empty
//! row.

use vstd::prelude::*;
use vstd::utf8::is_ascii_chars;

use crate::row::{row_width_ok, Row, RowModel};
use crate::segment::{classify, classify_at, grapheme_is, graphemes_of, lemma_escape_end_bounds,
    lemma_tab_width, max_token_width, split_graphemes};
use crate::token::{lemma_sum_widths_nonneg, lemma_sum_widths_push, sum_widths, TokenModel};

verus! {

/// A row as the tokenizer closes it: no origin line yet, cached width equal
/// to the token width sum, and the continuation mark of a wrapped row.
pub open spec fn close_row(ts: Seq<TokenModel>, wrapped: bool) -> RowModel {
    RowModel { lineno: -1, width: sum_widths(ts), setret: wrapped, tokens: ts }
}

/// The rows produced from the clusters `gs[i..]` when the tokens `cur` are
/// already open: tokens are classified at the column given by the open
/// row's width sum, a token overflowing the wrap column closes the open row
/// as wrapped, and the end of the line closes the open row as unwrapped.
pub open spec fn parse_from(
    gs: Seq<Seq<char>>,
    tabstop: int,
    wcol: int,
    i: int,
    cur: Seq<TokenModel>,
) -> Seq<RowModel>
    decreases gs.len() - i via parse_from_decreases
{
    if i < 0 || i >= gs.len() {
        seq![close_row(cur, false)]
    } else {
        match classify_at(gs, i, sum_widths(cur), tabstop) {
            Option::None => seq![close_row(cur, false)],
            Option::Some(p) => {
                if cur.len() > 0 && sum_widths(cur) + p.0.width > wcol {
                    seq![close_row(cur, true)] + parse_from(gs, tabstop, wcol, p.1, seq![p.0])
                } else {
                    parse_from(gs, tabstop, wcol, p.1, cur.push(p.0))
                }
            },
        }
    }
}

#[via_fn]
proof fn parse_from_decreases(
    gs: Seq<Seq<char>>,
    tabstop: int,
    wcol: int,
    i: int,
    cur: Seq<TokenModel>,
) {
    if 0 <= i < gs.len() {
        lemma_escape_end_bounds(gs, i + 1);
    }
}

/// The rows produced from one whole input line.
pub open spec fn line_rows(s: Seq<char>, tabstop: int, wcol: int) -> Seq<RowModel> {
    parse_from(graphemes_of(s), tabstop, wcol, 0, Seq::empty())
}

/// The column never exceeds the wrap column or a single token's width,
/// whichever is larger.
pub open spec fn col_bound(wcol: int, tabstop: int) -> int {
    if wcol > max_token_width(tabstop) {
        wcol
    } else {
        max_token_width(tabstop)
    }
}

/// Tokenizes one logical line: classifies each grapheme cluster and wraps
/// the tokens greedily at `wcolumn`, never splitting a token. Returns the
/// row sequence of the line; the caller tags the first row with its line
/// number. The tab stop and wrap column carry a generous upper bound so
/// the column arithmetic stays within `isize`.
pub fn parse_line(rawstr: &str, tabstop: isize, wcolumn: isize) -> (rchk: Vec<Row>)
    requires
        1 <= tabstop <= 0x1000_0000,
        1 <= wcolumn <= 0x1000_0000,
    ensures
        rchk.deep_view() == line_rows(rawstr@, tabstop as int, wcolumn as int),
{
    let ghost t = tabstop as int;
    let ghost w = wcolumn as int;
    let ghost gsm = graphemes_of(rawstr@);
    let gs = split_graphemes(rawstr);
    let n = gs.len();
    let mut rchk: Vec<Row> = Vec::new();
    let mut currow = Row::new();
    let mut x: isize = 0;
    let mut i: usize = 0;
    proof {
        assert(rchk.deep_view() =~= Seq::<RowModel>::empty());
        assert(currow@.tokens =~= Seq::<TokenModel>::empty());
        assert(rchk.deep_view() + parse_from(gsm, t, w, 0, currow@.tokens) =~= parse_from(
            gsm,
            t,
            w,
            0,
            Seq::empty(),
        ));
    }
    while i < n
        invariant
            t == tabstop as int,
            w == wcolumn as int,
            gsm == graphemes_of(rawstr@),
            gs.deep_view() == gsm,
            n == gs@.len(),
            i <= n,
            1 <= tabstop <= 0x1000_0000,
            1 <= wcolumn <= 0x1000_0000,
            currow@.lineno == -1,
            !currow@.setret,
            x as int == sum_widths(currow@.tokens),
            0 <= x,
            x as int <= col_bound(w, t),
            (currow@.tokens.len() == 0) <==> (x == 0),
            forall|q: int| 0 <= q < currow@.tokens.len() ==> 1 <= #[trigger] currow@.tokens[q].width,
            line_rows(rawstr@, t, w) == rchk.deep_view() + parse_from(
                gsm,
                t,
                w,
                i as int,
                currow@.tokens,
            ),
        decreases n - i,
    {
        let ghost pre_rows = rchk.deep_view();
        let ghost pre_cur = currow@.tokens;
        match classify(&gs, i, x, tabstop) {
            None => {
                proof {
                    assert(parse_from(gsm, t, w, i as int, pre_cur) == seq![
                        close_row(pre_cur, false),
                    ]);
                    assert(parse_from(gsm, t, w, n as int, pre_cur) == seq![
                        close_row(pre_cur, false),
                    ]);
                }
                i = n;
            },
            Some(p) => {
                let (tk, j) = p;
                let ghost tkm = tk@;
                if currow.tokens.len() > 0 && x + tk.width > wcolumn {
                    proof {
                        assert(parse_from(gsm, t, w, i as int, pre_cur) == seq![
                            close_row(pre_cur, true),
                        ] + parse_from(gsm, t, w, j as int, seq![tkm]));
                    }
                    currow.setret = true;
                    currow.calcwidth();
                    assert(currow@ == close_row(pre_cur, true));
                    rchk.push(currow);
                    proof {
                        assert(rchk.deep_view() =~= pre_rows.push(close_row(pre_cur, true)));
                        assert(pre_rows.push(close_row(pre_cur, true)) + parse_from(
                            gsm,
                            t,
                            w,
                            j as int,
                            seq![tkm],
                        ) =~= pre_rows + (seq![close_row(pre_cur, true)] + parse_from(
                            gsm,
                            t,
                            w,
                            j as int,
                            seq![tkm],
                        )));
                    }
                    currow = Row::new();
                    x = 0;
                } else {
                    proof {
                        assert(parse_from(gsm, t, w, i as int, pre_cur) == parse_from(
                            gsm,
                            t,
                            w,
                            j as int,
                            pre_cur.push(tkm),
                        ));
                    }
                }
                let ghost mid_cur = currow@.tokens;
                proof {
                    lemma_sum_widths_push(mid_cur, tkm);
                }
                x = x + tk.width;
                currow.tokens.push(tk);
                i = j;
                proof {
                    assert(currow@.tokens =~= mid_cur.push(tkm));
                }
            },
        }
    }
    let ghost fin_cur = currow@.tokens;
    let ghost fin_rows = rchk.deep_view();
    proof {
        assert(parse_from(gsm, t, w, i as int, fin_cur) == seq![close_row(fin_cur, false)]);
    }
    currow.calcwidth();
    assert(currow@ == close_row(fin_cur, false));
    rchk.push(currow);
    proof {
        assert(rchk.deep_view() =~= fin_rows.push(close_row(fin_cur, false)));
        assert(fin_rows.push(close_row(fin_cur, false)) =~= fin_rows + seq![
            close_row(fin_cur, false),
        ]);
    }
    rchk
}

/// One classification step never stands still: the next index moves past at
/// least the classified cluster and stays within the line.
proof fn lemma_classify_at_next(gs: Seq<Seq<char>>, i: int, x: int, tabstop: int)
    requires
        0 <= i < gs.len(),
    ensures
        match classify_at(gs, i, x, tabstop) {
            Option::Some(p) => i < p.1 <= gs.len(),
            Option::None => true,
        },
{
    lemma_escape_end_bounds(gs, i + 1);
}

/// At a non-negative column every classified token is at least one cell
/// wide and at most a whole tab stop or the placeholder width.
proof fn lemma_classify_at_width(gs: Seq<Seq<char>>, i: int, x: int, tabstop: int)
    requires
        0 <= i < gs.len(),
        0 <= x,
        1 <= tabstop,
    ensures
        match classify_at(gs, i, x, tabstop) {
            Option::Some(p) => 1 <= p.0.width <= max_token_width(tabstop),
            Option::None => true,
        },
{
    if is_ascii_chars(gs[i]) && grapheme_is(gs[i], '\t') {
        lemma_tab_width(x, tabstop);
    }
}

/// The tokenizer yields at least one row; the first row keeps the tokens
/// that were already open as a prefix; the last row carries no continuation
/// mark.
proof fn lemma_parse_from_first(gs: Seq<Seq<char>>, t: int, w: int, i: int, cur: Seq<TokenModel>)
    requires
        0 <= i <= gs.len(),
    ensures
        ({
            let rows = parse_from(gs, t, w, i, cur);
            &&& rows.len() >= 1
            &&& rows[0].tokens.len() >= cur.len()
            &&& forall|q: int| 0 <= q < cur.len() ==> rows[0].tokens[q] == cur[q]
            &&& !rows[rows.len() - 1].setret
        }),
    decreases gs.len() - i,
{
    if 0 <= i < gs.len() {
        lemma_classify_at_next(gs, i, sum_widths(cur), t);
        match classify_at(gs, i, sum_widths(cur), t) {
            Option::None => {
            },
            Option::Some(p) => {
                if cur.len() > 0 && sum_widths(cur) + p.0.width > w {
                    lemma_parse_from_first(gs, t, w, p.1, seq![p.0]);
                    let rows = parse_from(gs, t, w, i, cur);
                    let rest = parse_from(gs, t, w, p.1, seq![p.0]);
                    assert(rows[0] == close_row(cur, true));
                    assert(rows.len() == 1 + rest.len());
                    assert(rows[rows.len() - 1] == rest[rest.len() - 1]);
                } else {
                    lemma_parse_from_first(gs, t, w, p.1, cur.push(p.0));
                    let rows = parse_from(gs, t, w, i, cur);
                    let rest = parse_from(gs, t, w, p.1, cur.push(p.0));
                    assert(rows == rest);
                    assert forall|q: int| 0 <= q < cur.len() implies rows[0].tokens[q] == cur[q] by {
                        assert(cur.push(p.0)[q] == cur[q]);
                        assert(rest[0].tokens[q] == cur.push(p.0)[q]);
                    }
                }
            },
        }
    }
}

/// Row bookkeeping of the tokenizer: every produced row caches exactly the
/// sum of its token widths, every token is at least one cell wide, no row
/// width is negative, and no row carries an origin line number yet.
proof fn lemma_parse_from_wf(gs: Seq<Seq<char>>, t: int, w: int, i: int, cur: Seq<TokenModel>)
    requires
        0 <= i <= gs.len(),
        1 <= t,
        forall|q: int| 0 <= q < cur.len() ==> 1 <= #[trigger] cur[q].width,
    ensures
        ({
            let rows = parse_from(gs, t, w, i, cur);
            &&& forall|k: int| 0 <= k < rows.len() ==> row_width_ok(#[trigger] rows[k])
            &&& forall|k: int, q: int|
                0 <= k < rows.len() && 0 <= q < rows[k].tokens.len() ==> 1 <= #[trigger] rows[k].tokens[q].width
            &&& forall|k: int| 0 <= k < rows.len() ==> 0 <= (#[trigger] rows[k]).width
            &&& forall|k: int| 0 <= k < rows.len() ==> (#[trigger] rows[k]).lineno == -1
        }),
    decreases gs.len() - i,
{
    let rows = parse_from(gs, t, w, i, cur);
    lemma_sum_widths_nonneg(cur);
    if i >= gs.len() {
        assert(rows =~= seq![close_row(cur, false)]);
    } else {
        lemma_classify_at_next(gs, i, sum_widths(cur), t);
        lemma_classify_at_width(gs, i, sum_widths(cur), t);
        match classify_at(gs, i, sum_widths(cur), t) {
            Option::None => {
            },
            Option::Some(p) => {
                if cur.len() > 0 && sum_widths(cur) + p.0.width > w {
                    lemma_parse_from_wf(gs, t, w, p.1, seq![p.0]);
                    let rest = parse_from(gs, t, w, p.1, seq![p.0]);
                    assert(forall|k: int| 1 <= k < rows.len() ==> rows[k] == rest[k - 1]);
                } else {
                    lemma_parse_from_wf(gs, t, w, p.1, cur.push(p.0));
                }
            },
        }
    }
}

/// LAW (row widths). Every row of a tokenized line caches exactly the sum
/// of its token widths; token widths are at least one cell, so row widths
/// are never negative. Every line yields at least one row, no row carries
/// an origin line number yet, and the last row never carries the
/// continuation mark.
pub proof fn lemma_line_rows_widths(s: Seq<char>, tabstop: int, wcol: int)
    requires
        1 <= tabstop,
    ensures
        ({
            let rows = line_rows(s, tabstop, wcol);
            &&& rows.len() >= 1
            &&& forall|k: int| 0 <= k < rows.len() ==> row_width_ok(#[trigger] rows[k])
            &&& forall|k: int, q: int|
                0 <= k < rows.len() && 0 <= q < rows[k].tokens.len() ==> 1 <= #[trigger] rows[k].tokens[q].width
            &&& forall|k: int| 0 <= k < rows.len() ==> 0 <= (#[trigger] rows[k]).width
            &&& forall|k: int| 0 <= k < rows.len() ==> (#[trigger] rows[k]).lineno == -1
            &&& !rows[rows.len() - 1].setret
        }),
{
    lemma_parse_from_first(graphemes_of(s), tabstop, wcol, 0, Seq::empty());
    lemma_parse_from_wf(graphemes_of(s), tabstop, wcol, 0, Seq::empty());
}

/// The tokens of a row sequence, concatenated in reading order.
pub open spec fn rows_tokens(rows: Seq<RowModel>) -> Seq<TokenModel>
    decreases rows.len(),
{
    if rows.len() == 0 {
        Seq::empty()
    } else {
        rows[0].tokens + rows_tokens(rows.drop_first())
    }
}

/// The classified token stream of the clusters `gs[i..]` with the tokens
/// `cur` already produced for the open row: the same classification as
/// `parse_from`, with the row boundaries forgotten.
pub open spec fn parse_tokens(
    gs: Seq<Seq<char>>,
    tabstop: int,
    wcol: int,
    i: int,
    cur: Seq<TokenModel>,
) -> Seq<TokenModel>
    decreases gs.len() - i via parse_tokens_decreases
{
    if i < 0 || i >= gs.len() {
        cur
    } else {
        match classify_at(gs, i, sum_widths(cur), tabstop) {
            Option::None => cur,
            Option::Some(p) => {
                if cur.len() > 0 && sum_widths(cur) + p.0.width > wcol {
                    cur + parse_tokens(gs, tabstop, wcol, p.1, seq![p.0])
                } else {
                    parse_tokens(gs, tabstop, wcol, p.1, cur.push(p.0))
                }
            },
        }
    }
}

#[via_fn]
proof fn parse_tokens_decreases(
    gs: Seq<Seq<char>>,
    tabstop: int,
    wcol: int,
    i: int,
    cur: Seq<TokenModel>,
) {
    if 0 <= i < gs.len() {
        lemma_escape_end_bounds(gs, i + 1);
    }
}

/// The classified token stream of one whole line.
pub open spec fn line_tokens(s: Seq<char>, tabstop: int, wcol: int) -> Seq<TokenModel> {
    parse_tokens(graphemes_of(s), tabstop, wcol, 0, Seq::empty())
}

/// Wrapping only regroups: the rows' tokens, concatenated, are the
/// classified token stream.
proof fn lemma_parse_from_tokens(gs: Seq<Seq<char>>, t: int, w: int, i: int, cur: Seq<TokenModel>)
    requires
        0 <= i <= gs.len(),
    ensures
        rows_tokens(parse_from(gs, t, w, i, cur)) == parse_tokens(gs, t, w, i, cur),
    decreases gs.len() - i,
{
    let rows = parse_from(gs, t, w, i, cur);
    if i >= gs.len() {
        assert(rows =~= seq![close_row(cur, false)]);
        assert(rows.drop_first() =~= Seq::<RowModel>::empty());
        assert(rows_tokens(rows.drop_first()) == Seq::<TokenModel>::empty());
        assert(rows_tokens(rows) == cur + Seq::<TokenModel>::empty());
        assert(cur + Seq::<TokenModel>::empty() =~= cur);
        assert(parse_tokens(gs, t, w, i, cur) == cur);
    } else {
        lemma_classify_at_next(gs, i, sum_widths(cur), t);
        match classify_at(gs, i, sum_widths(cur), t) {
            Option::None => {
                assert(rows =~= seq![close_row(cur, false)]);
                assert(rows.drop_first() =~= Seq::<RowModel>::empty());
                assert(rows_tokens(rows.drop_first()) == Seq::<TokenModel>::empty());
                assert(rows_tokens(rows) == cur + Seq::<TokenModel>::empty());
                assert(cur + Seq::<TokenModel>::empty() =~= cur);
                assert(parse_tokens(gs, t, w, i, cur) == cur);
            },
            Option::Some(p) => {
                if cur.len() > 0 && sum_widths(cur) + p.0.width > w {
                    lemma_parse_from_tokens(gs, t, w, p.1, seq![p.0]);
                    let rest = parse_from(gs, t, w, p.1, seq![p.0]);
                    assert(rows.drop_first() =~= rest);
                    assert(rows[0] == close_row(cur, true));
                    assert(rows_tokens(rows) == cur + rows_tokens(rest));
                    assert(parse_tokens(gs, t, w, i, cur) == cur + parse_tokens(
                        gs,
                        t,
                        w,
                        p.1,
                        seq![p.0],
                    ));
                } else {
                    lemma_parse_from_tokens(gs, t, w, p.1, cur.push(p.0));
                    assert(rows == parse_from(gs, t, w, p.1, cur.push(p.0)));
                    assert(parse_tokens(gs, t, w, i, cur) == parse_tokens(
                        gs,
                        t,
                        w,
                        p.1,
                        cur.push(p.0),
                    ));
                }
            },
        }
    }
}

/// LAW (token coverage). No token is duplicated or dropped across a wrap
/// boundary: the rows of a tokenized line, with their token lists
/// concatenated in order, carry exactly the classified token stream of the
/// line.
pub proof fn lemma_line_token_coverage(s: Seq<char>, tabstop: int, wcol: int)
    ensures
        rows_tokens(line_rows(s, tabstop, wcol)) == line_tokens(s, tabstop, wcol),
{
    lemma_parse_from_tokens(graphemes_of(s), tabstop, wcol, 0, Seq::empty());
}

/// Every row closed by a wrap is followed by a row, and could not have held
/// that row's first token.
proof fn lemma_parse_from_wrap(gs: Seq<Seq<char>>, t: int, w: int, i: int, cur: Seq<TokenModel>)
    requires
        0 <= i <= gs.len(),
    ensures
        ({
            let rows = parse_from(gs, t, w, i, cur);
            forall|k: int|
                0 <= k < rows.len() - 1 ==> (#[trigger] rows[k]).setret && rows[k
                    + 1].tokens.len() > 0 && rows[k].width + rows[k + 1].tokens[0].width > w
        }),
    decreases gs.len() - i,
{
    let rows = parse_from(gs, t, w, i, cur);
    if 0 <= i < gs.len() {
        lemma_classify_at_next(gs, i, sum_widths(cur), t);
        match classify_at(gs, i, sum_widths(cur), t) {
            Option::None => {
            },
            Option::Some(p) => {
                if cur.len() > 0 && sum_widths(cur) + p.0.width > w {
                    lemma_parse_from_wrap(gs, t, w, p.1, seq![p.0]);
                    lemma_parse_from_first(gs, t, w, p.1, seq![p.0]);
                    let rest = parse_from(gs, t, w, p.1, seq![p.0]);
                    assert(rows[0] == close_row(cur, true));
                    assert(rows.len() == 1 + rest.len());
                    assert(rows[1] == rest[0]);
                    assert(rest[0].tokens.len() >= 1 && rest[0].tokens[0] == p.0);
                    assert(rows[0].setret && rows[1].tokens.len() > 0 && rows[0].width + rows[1].tokens[0].width > w);
                    assert forall|k: int|
                        1 <= k < rows.len() - 1 implies (#[trigger] rows[k]).setret && rows[k
                        + 1].tokens.len() > 0 && rows[k].width + rows[k + 1].tokens[0].width
                        > w by {
                        assert(rows[k] == rest[k - 1]);
                        assert(rows[k + 1] == rest[k]);
                    }
                } else {
                    lemma_parse_from_wrap(gs, t, w, p.1, cur.push(p.0));
                    assert(rows == parse_from(gs, t, w, p.1, cur.push(p.0)));
                }
            },
        }
    }
}

/// LAW (wrap necessity). Every row of a line but the last carries the
/// continuation mark, and carries it rightly: appending the first token of
/// the following row would have pushed its width past the wrap column. No
/// token is ever split to make a row fit.
pub proof fn lemma_line_rows_wrap(s: Seq<char>, tabstop: int, wcol: int)
    ensures
        ({
            let rows = line_rows(s, tabstop, wcol);
            forall|k: int|
                0 <= k < rows.len() - 1 ==> (#[trigger] rows[k]).setret && rows[k
                    + 1].tokens.len() > 0 && rows[k].width + rows[k + 1].tokens[0].width > wcol
        }),
{
    lemma_parse_from_wrap(graphemes_of(s), tabstop, wcol, 0, Seq::empty());
}

} // verus!
