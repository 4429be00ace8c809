//! Pagination: cuts the full row stream into pages of at most `lmax` rows,
//! each page carrying the number of rows that precede it as its
//! line-number offset.

use vstd::prelude::*;

use crate::row::{Row, RowModel};

verus! {

/// One page: its rows and the count of rows on earlier pages, the offset
/// to apply when numbering its lines.
pub struct Page {
    pub rows: Vec<Row>,
    pub lineoffset: usize,
}

/// The row stream cut greedily into pages of `lmax` rows; a final short
/// remainder forms the last page, and an empty stream has no pages.
pub open spec fn chunks_of(rs: Seq<RowModel>, lmax: int) -> Seq<Seq<RowModel>>
    decreases rs.len() when lmax >= 1
{
    if rs.len() == 0 {
        Seq::empty()
    } else if rs.len() <= lmax {
        seq![rs]
    } else {
        seq![rs.take(lmax)] + chunks_of(rs.skip(lmax), lmax)
    }
}

/// The rows of a page sequence, concatenated in order.
pub open spec fn pages_rows(ps: Seq<Seq<RowModel>>) -> Seq<RowModel>
    decreases ps.len(),
{
    if ps.len() == 0 {
        Seq::empty()
    } else {
        ps[0] + pages_rows(ps.drop_first())
    }
}

/// The row model of each page of a page sequence.
pub open spec fn pages_model(ps: Seq<Page>) -> Seq<Seq<RowModel>> {
    Seq::new(ps.len(), |k: int| ps[k].rows.deep_view())
}

/// LAW (pagination). Cutting the stream into pages loses, duplicates and
/// reorders nothing: the pages' rows, concatenated, are exactly the
/// stream. Every page but the last holds exactly `lmax` rows, the last
/// between one and `lmax`, and only an empty stream yields no pages.
pub proof fn lemma_chunks_cover(rs: Seq<RowModel>, lmax: int)
    requires
        1 <= lmax,
    ensures
        ({
            let ps = chunks_of(rs, lmax);
            &&& pages_rows(ps) == rs
            &&& forall|k: int| 0 <= k < ps.len() - 1 ==> (#[trigger] ps[k]).len() == lmax
            &&& ps.len() > 0 ==> 1 <= ps[ps.len() - 1].len() <= lmax
            &&& (ps.len() == 0 <==> rs.len() == 0)
        }),
    decreases rs.len(),
{
    let ps = chunks_of(rs, lmax);
    if rs.len() == 0 {
        assert(pages_rows(ps) =~= rs);
    } else if rs.len() <= lmax {
        assert(ps.drop_first() =~= Seq::<Seq<RowModel>>::empty());
        assert(pages_rows(ps.drop_first()) == Seq::<RowModel>::empty());
        assert(rs + Seq::<RowModel>::empty() =~= rs);
    } else {
        lemma_chunks_cover(rs.skip(lmax), lmax);
        let rest = chunks_of(rs.skip(lmax), lmax);
        assert(ps.drop_first() =~= rest);
        assert(ps[0] == rs.take(lmax));
        assert(pages_rows(ps) == rs.take(lmax) + pages_rows(rest));
        assert(rs.take(lmax) + rs.skip(lmax) =~= rs);
        assert(ps[ps.len() - 1] == rest[rest.len() - 1]);
        assert(forall|k: int| 1 <= k < ps.len() ==> ps[k] == rest[k - 1]);
    }
}

/// Splits the row stream into pages of at most `lmax` rows each, in order;
/// page `k` carries the line-number offset `k * lmax`, the count of rows
/// on the pages before it.
pub fn paginate(rows: Vec<Row>, lmax: usize) -> (pages: Vec<Page>)
    requires
        1 <= lmax,
    ensures
        pages_model(pages@) == chunks_of(rows.deep_view(), lmax as int),
        forall|k: int| 0 <= k < pages@.len() ==> (#[trigger] pages@[k]).lineoffset == k * lmax,
{
    let ghost rsm = rows.deep_view();
    let total = rows.len();
    let mut fullrow = rows;
    let mut curpic: Vec<Row> = Vec::new();
    let mut pages: Vec<Page> = Vec::new();
    let mut lineoffset: usize = 0;
    proof {
        assert(pages_model(pages@) =~= Seq::<Seq<RowModel>>::empty());
        assert(curpic.deep_view() + fullrow.deep_view() =~= rsm);
        assert(pages_model(pages@) + chunks_of(rsm, lmax as int) =~= chunks_of(rsm, lmax as int));
    }
    while fullrow.len() > 0
        invariant
            1 <= lmax,
            rsm.len() == total,
            curpic@.len() < lmax,
            lineoffset == pages@.len() * lmax,
            pages@.len() * lmax + curpic@.len() + fullrow@.len() == total,
            chunks_of(rsm, lmax as int) == pages_model(pages@) + chunks_of(
                curpic.deep_view() + fullrow.deep_view(),
                lmax as int,
            ),
            forall|k: int| 0 <= k < pages@.len() ==> (#[trigger] pages@[k]).lineoffset == k * lmax,
        decreases fullrow@.len(),
    {
        let ghost cm = curpic.deep_view();
        let ghost fm = fullrow.deep_view();
        let ghost fv = fullrow@;
        let r = fullrow.remove(0);
        proof {
            assert(fullrow@ =~= fv.skip(1));
            assert(forall|q: int|
                0 <= q < fullrow@.len() ==> #[trigger] fullrow@[q].deep_view() == fm[q + 1]);
            assert(fullrow.deep_view() =~= fm.skip(1));
            assert(r@ == fm[0]);
        }
        curpic.push(r);
        proof {
            assert(curpic.deep_view() =~= cm.push(fm[0]));
            assert(cm.push(fm[0]) + fm.skip(1) =~= cm + fm);
        }
        if curpic.len() >= lmax {
            let ghost cm2 = curpic.deep_view();
            let ghost fm2 = fullrow.deep_view();
            proof {
                assert(cm2.len() == lmax);
                if fm2.len() == 0 {
                    assert(cm2 + fm2 =~= cm2);
                    assert(chunks_of(cm2, lmax as int) =~= seq![cm2]);
                    assert(chunks_of(fm2, lmax as int) =~= Seq::<Seq<RowModel>>::empty());
                    assert(chunks_of(cm2 + fm2, lmax as int) =~= seq![cm2] + chunks_of(
                        fm2,
                        lmax as int,
                    ));
                } else {
                    assert((cm2 + fm2).take(lmax as int) =~= cm2);
                    assert((cm2 + fm2).skip(lmax as int) =~= fm2);
                    assert(chunks_of(cm2 + fm2, lmax as int) =~= seq![cm2] + chunks_of(
                        fm2,
                        lmax as int,
                    ));
                }
                assert((pages@.len() + 1) * lmax == pages@.len() * lmax + lmax) by (nonlinear_arith);
            }
            let ghost pv = pages@;
            pages.push(Page { rows: curpic, lineoffset });
            lineoffset = lineoffset + lmax;
            curpic = Vec::new();
            proof {
                assert(pages_model(pages@) =~= pages_model(pv).push(cm2));
                assert(pages_model(pv).push(cm2) =~= pages_model(pv) + seq![cm2]);
                assert(curpic.deep_view() + fullrow.deep_view() =~= fm2);
            }
        }
    }
    let ghost cm = curpic.deep_view();
    proof {
        assert(cm + fullrow.deep_view() =~= cm);
    }
    if curpic.len() > 0 {
        proof {
            assert(chunks_of(cm, lmax as int) =~= seq![cm]);
        }
        let ghost pv = pages@;
        pages.push(Page { rows: curpic, lineoffset });
        proof {
            assert(pages_model(pages@) =~= pages_model(pv).push(cm));
            assert(pages_model(pv).push(cm) =~= pages_model(pv) + seq![cm]);
        }
    } else {
        proof {
            assert(cm =~= Seq::<RowModel>::empty());
            assert(chunks_of(cm, lmax as int) =~= Seq::<Seq<RowModel>>::empty());
            assert(pages_model(pages@) + Seq::<Seq<RowModel>>::empty() =~= pages_model(pages@));
        }
    }
    pages
}

} // verus!
