//! Stream aggregation: drives the tokenizer over all input lines, tags each
//! line's first row with its 1-based line number, and measures the stream —
//! the widest row and the total row count.

use vstd::prelude::*;

use crate::row::{row_width_ok, Row, RowModel};
use crate::wrap::{lemma_line_rows_widths, line_rows, parse_line};

verus! {

/// The rows of one line with the line's 1-based number tagged on the first
/// row; continuation rows keep their unset number.
pub open spec fn tag_first(rows: Seq<RowModel>, lineno: int) -> Seq<RowModel> {
    if rows.len() == 0 {
        rows
    } else {
        rows.update(
            0,
            RowModel {
                lineno: lineno,
                width: rows[0].width,
                setret: rows[0].setret,
                tokens: rows[0].tokens,
            },
        )
    }
}

/// The full row stream of the input lines, in order.
pub open spec fn stream_rows(ls: Seq<Seq<char>>, tabstop: int, wcol: int) -> Seq<RowModel>
    decreases ls.len(),
{
    if ls.len() == 0 {
        Seq::empty()
    } else {
        stream_rows(ls.drop_last(), tabstop, wcol) + tag_first(
            line_rows(ls.last(), tabstop, wcol),
            ls.len() as int,
        )
    }
}

/// LAW (row widths, stream level). Tagging line numbers changes no widths:
/// every row of the aggregated stream still caches exactly the sum of its
/// token widths, and no row width is negative.
pub proof fn lemma_stream_rows_widths(ls: Seq<Seq<char>>, tabstop: int, wcol: int)
    requires
        1 <= tabstop,
    ensures
        ({
            let rows = stream_rows(ls, tabstop, wcol);
            &&& forall|k: int| 0 <= k < rows.len() ==> row_width_ok(#[trigger] rows[k])
            &&& forall|k: int| 0 <= k < rows.len() ==> 0 <= (#[trigger] rows[k]).width
        }),
    decreases ls.len(),
{
    if ls.len() > 0 {
        lemma_stream_rows_widths(ls.drop_last(), tabstop, wcol);
        lemma_line_rows_widths(ls.last(), tabstop, wcol);
        let prev = stream_rows(ls.drop_last(), tabstop, wcol);
        let line = line_rows(ls.last(), tabstop, wcol);
        let tagged = tag_first(line, ls.len() as int);
        let rows = stream_rows(ls, tabstop, wcol);
        assert(tagged[0].width == line[0].width && tagged[0].tokens == line[0].tokens);
        assert(forall|k: int| 1 <= k < tagged.len() ==> #[trigger] tagged[k] == line[k]);
        assert(forall|k: int| 0 <= k < prev.len() ==> rows[k] == prev[k]);
        assert(forall|k: int|
            prev.len() <= k < rows.len() ==> #[trigger] rows[k] == tagged[k - prev.len()]);
    }
}

/// The widest row of a stream; zero when there are none.
pub open spec fn max_row_width(rows: Seq<RowModel>) -> int
    decreases rows.len(),
{
    if rows.len() == 0 {
        0
    } else {
        let m = max_row_width(rows.drop_last());
        if rows.last().width > m {
            rows.last().width
        } else {
            m
        }
    }
}

/// LAW (measurement bound): the aggregated maximum is non-negative and at
/// least every single row's width.
pub proof fn lemma_max_row_width_bound(rows: Seq<RowModel>)
    ensures
        0 <= max_row_width(rows),
        forall|k: int| 0 <= k < rows.len() ==> (#[trigger] rows[k]).width <= max_row_width(rows),
    decreases rows.len(),
{
    if rows.len() > 0 {
        lemma_max_row_width_bound(rows.drop_last());
        assert(forall|k: int| 0 <= k < rows.len() - 1 ==> rows[k] == rows.drop_last()[k]);
    }
}

/// Appending one row raises the maximum to that row's width when it is
/// wider.
proof fn lemma_max_row_width_push(rows: Seq<RowModel>, r: RowModel)
    ensures
        max_row_width(rows.push(r)) == if r.width > max_row_width(rows) {
            r.width
        } else {
            max_row_width(rows)
        },
{
    assert(rows.push(r).drop_last() =~= rows);
    assert(rows.push(r).last() == r);
}

/// What one pass over the input measures: the full tagged row stream, the
/// widest row (`nchars`) and the row count (`crow`).
pub struct ScanResult {
    pub rows: Vec<Row>,
    pub nchars: isize,
    pub crow: usize,
}

/// Tokenizes every input line, tags each line's first row with the 1-based
/// line number, and returns the full row stream together with the maximum
/// row width and the total row count.
pub fn aggregate(lines: &Vec<String>, tabstop: isize, wcolumn: isize) -> (res: ScanResult)
    requires
        1 <= tabstop <= 0x1000_0000,
        1 <= wcolumn <= 0x1000_0000,
        lines@.len() <= isize::MAX,
    ensures
        ({
            let stream = stream_rows(lines.deep_view(), tabstop as int, wcolumn as int);
            &&& res.rows.deep_view() == stream
            &&& res.nchars as int == max_row_width(stream)
            &&& 0 <= res.nchars
            &&& res.crow == stream.len()
            &&& forall|k: int| 0 <= k < stream.len() ==> (#[trigger] stream[k]).width <= res.nchars
        }),
{
    let ghost t = tabstop as int;
    let ghost w = wcolumn as int;
    let ghost lsm = lines.deep_view();
    let mut rows: Vec<Row> = Vec::new();
    let mut maxwidth: isize = 0;
    let mut cline: usize = 0;
    proof {
        assert(lsm.take(0) =~= Seq::<Seq<char>>::empty());
        assert(rows.deep_view() =~= Seq::<RowModel>::empty());
    }
    while cline < lines.len()
        invariant
            t == tabstop as int,
            w == wcolumn as int,
            1 <= tabstop <= 0x1000_0000,
            1 <= wcolumn <= 0x1000_0000,
            lsm == lines.deep_view(),
            lines@.len() <= isize::MAX,
            cline <= lines@.len(),
            rows.deep_view() == stream_rows(lsm.take(cline as int), t, w),
            maxwidth as int == max_row_width(rows.deep_view()),
            0 <= maxwidth,
        decreases lines@.len() - cline,
    {
        let ghost prev = rows.deep_view();
        let line = &lines[cline];
        assert(line@ == lsm[cline as int]);
        let mut chunk = parse_line(line.as_str(), tabstop, wcolumn);
        let ghost chm = line_rows(lsm[cline as int], t, w);
        cline = cline + 1;
        let ghost tagm = tag_first(chm, cline as int);
        proof {
            lemma_line_rows_widths(lsm[cline - 1], t, w);
            assert(chm.len() >= 1);
            assert(tagm.len() == chm.len());
            assert(lsm.take(cline as int).drop_last() =~= lsm.take(cline - 1));
            assert(lsm.take(cline as int).last() == lsm[cline - 1]);
            assert(lsm.take(cline as int).len() == cline as int);
            assert(stream_rows(lsm.take(cline as int), t, w) == stream_rows(
                lsm.take(cline - 1),
                t,
                w,
            ) + tagm);
        }
        let mut first = chunk.remove(0);
        first.lineno = cline as isize;
        proof {
            assert(first@ == tagm[0]);
        }
        if first.width > maxwidth {
            maxwidth = first.width;
        }
        proof {
            lemma_max_row_width_push(prev, tagm[0]);
        }
        rows.push(first);
        let ghost mut done: int = 1;
        proof {
            assert(rows.deep_view() =~= prev.push(tagm[0]));
            assert(rows.deep_view() =~= prev + tagm.take(1));
            assert(chunk.deep_view() =~= chm.skip(1));
        }
        while chunk.len() > 0
            invariant
                1 <= done <= tagm.len(),
                tagm.len() == chm.len(),
                done == chm.len() - chunk@.len(),
                chunk.deep_view() == chm.skip(done),
                forall|k: int| 1 <= k < chm.len() ==> #[trigger] tagm[k] == chm[k],
                rows.deep_view() == prev + tagm.take(done),
                maxwidth as int == max_row_width(rows.deep_view()),
                0 <= maxwidth,
            decreases chunk@.len(),
        {
            let ghost mid = rows.deep_view();
            let ghost chpre = chunk.deep_view();
            let ghost chv = chunk@;
            let r = chunk.remove(0);
            proof {
                assert(chm.skip(done)[0] == chm[done]);
                assert(r@ == chm[done]);
                assert(chunk@ =~= chv.skip(1));
                assert(forall|q: int|
                    0 <= q < chunk@.len() ==> #[trigger] chunk@[q].deep_view() == chpre[q + 1]);
                assert(chunk.deep_view() =~= chm.skip(done + 1));
            }
            if r.width > maxwidth {
                maxwidth = r.width;
            }
            proof {
                lemma_max_row_width_push(mid, chm[done]);
                assert(mid.push(tagm[done]) =~= prev + tagm.take(done + 1));
            }
            rows.push(r);
            proof {
                assert(rows.deep_view() =~= mid.push(chm[done]));
                done = done + 1;
            }
        }
        proof {
            assert(tagm.take(done) =~= tagm);
            assert(rows.deep_view() == prev + tagm);
        }
    }
    proof {
        assert(lsm.take(lines@.len() as int) =~= lsm);
        lemma_max_row_width_bound(rows.deep_view());
    }
    let crow = rows.len();
    ScanResult { rows, nchars: maxwidth, crow }
}

} // verus!
