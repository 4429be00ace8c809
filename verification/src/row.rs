//! Rows of the output grid: each row owns an ordered token sequence, caches
//! the sum of the token widths, and remembers whether it was closed by a
//! width-overflow wrap.

use vstd::prelude::*;

use crate::token::{sum_widths, Token, TokenModel};

verus! {

/// Spec-level image of a `Row`.
pub ghost struct RowModel {
    pub lineno: int,
    pub width: int,
    pub setret: bool,
    pub tokens: Seq<TokenModel>,
}

/// One rendered line of the output grid.
///
/// `lineno` is the 1-based input line the row originates from, or `-1` for a
/// continuation row; `width` caches the token width sum once `calcwidth` has
/// run; `setret` is set when the row was closed by a wrap rather than by the
/// end of its input line.
#[derive(Debug, Clone)]
pub struct Row {
    pub lineno: isize,
    pub width: isize,
    pub setret: bool,
    pub tokens: Vec<Token>,
}

impl View for Row {
    type V = RowModel;

    open spec fn view(&self) -> RowModel {
        RowModel {
            lineno: self.lineno as int,
            width: self.width as int,
            setret: self.setret,
            tokens: self.tokens.deep_view(),
        }
    }
}

impl DeepView for Row {
    type V = RowModel;

    open spec fn deep_view(&self) -> RowModel {
        self.view()
    }
}

/// A well-formed closed row caches exactly the sum of its token widths.
pub open spec fn row_width_ok(r: RowModel) -> bool {
    r.width == sum_widths(r.tokens)
}

impl Row {
    /// A fresh open row: no origin line, no cached width, no tokens.
    pub fn new() -> (r: Row)
        ensures
            r@.lineno == -1,
            r@.width == -1,
            !r@.setret,
            r@.tokens =~= Seq::<TokenModel>::empty(),
    {
        Row { lineno: -1, width: -1, setret: false, tokens: Vec::new() }
    }

    /// Resets the row to the fresh state.
    pub fn clear(&mut self)
        ensures
            final(self)@.lineno == -1,
            final(self)@.width == -1,
            !final(self)@.setret,
            final(self)@.tokens =~= Seq::<TokenModel>::empty(),
    {
        self.lineno = -1;
        self.width = -1;
        self.setret = false;
        self.tokens.clear();
    }

    /// Recomputes the cached `width` as the sum of the token widths.
    pub fn calcwidth(&mut self)
        requires
            forall|i: int| 0 <= i < old(self)@.tokens.len() ==> 0 <= old(self)@.tokens[i].width,
            sum_widths(old(self)@.tokens) <= isize::MAX,
        ensures
            final(self)@.width == sum_widths(old(self)@.tokens),
            final(self)@.lineno == old(self)@.lineno,
            final(self)@.setret == old(self)@.setret,
            final(self)@.tokens == old(self)@.tokens,
            row_width_ok(final(self)@),
    {
        let ghost ts = self@.tokens;
        let mut sum: isize = 0;
        let mut k: usize = 0;
        while k < self.tokens.len()
            invariant
                k <= self.tokens.len(),
                *self == *old(self),
                ts == self@.tokens,
                forall|i: int| 0 <= i < ts.len() ==> 0 <= ts[i].width,
                sum_widths(ts) <= isize::MAX,
                sum == sum_widths(ts.take(k as int)),
                0 <= sum,
            decreases self.tokens.len() - k,
        {
            proof {
                assert(ts.take(k + 1).drop_last() =~= ts.take(k as int));
                assert(ts.take(k + 1).last() == ts[k as int]);
                lemma_take_sum_le(ts, k + 1);
            }
            sum = sum + self.tokens[k].width;
            k = k + 1;
        }
        proof {
            assert(ts.take(ts.len() as int) =~= ts);
        }
        self.width = sum;
    }
}

/// For non-negative widths, a prefix sum never exceeds the whole sum.
proof fn lemma_take_sum_le(ts: Seq<TokenModel>, k: int)
    requires
        0 <= k <= ts.len(),
        forall|i: int| 0 <= i < ts.len() ==> 0 <= ts[i].width,
    ensures
        sum_widths(ts.take(k)) <= sum_widths(ts),
    decreases ts.len() - k,
{
    if k == ts.len() {
        assert(ts.take(k) =~= ts);
    } else {
        lemma_take_sum_le(ts, k + 1);
        assert(ts.take(k + 1).drop_last() =~= ts.take(k));
        assert(ts.take(k + 1).last() == ts[k]);
        assert(sum_widths(ts.take(k)) <= sum_widths(ts.take(k + 1)));
    }
}

} // verus!
