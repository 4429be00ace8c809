//! Canvas geometry: derives the drawing measurements — numbering gutter,
//! text offset and width, canvas width and height and their floors — from
//! the aggregated row measurements and the configuration.

use vstd::prelude::*;

use crate::config::Param;

verus! {

/// The measurement snapshot shared by all pages of one input: maximum row
/// width in characters, digit count of the numbering, text x-offset, text
/// width and its floor, canvas width, canvas height and its floor.
#[derive(Debug, Clone)]
pub struct Geo {
    pub nchars: isize,
    pub ndigits: isize,
    pub txoffset: isize,
    pub txwidth: isize,
    pub txwmin: isize,
    pub cvwidth: isize,
    pub cvheight: isize,
    pub cvhmin: isize,
}

/// The width of the line-number gutter: one cell per digit plus one,
/// nothing when numbering is off.
pub open spec fn spec_numwid(numbering: bool, numw: int, ndigits: int) -> int {
    if numbering {
        numw * (ndigits + 1)
    } else {
        0
    }
}

/// The text x-offset: inner margin, gutter and separation margin when
/// numbering is on, zero otherwise.
pub open spec fn spec_txoffset(numbering: bool, inmargin: int, numwid: int, sepmargin: int) -> int {
    if numbering {
        inmargin + numwid + sepmargin
    } else {
        0
    }
}

/// Computes the whole geometry snapshot from the aggregated measurements
/// (`nchars` widest row, `ndigits` numbering digits, `crow` total rows) and
/// the configuration: both margins around `nchars` cells of text, the
/// numbering gutter in front when numbering is on, and `crow` line heights
/// between the vertical margins, with the configured width and line floors.
pub fn compute_geo(param: &Param, nchars: isize, ndigits: isize, crow: usize) -> (g: Geo)
    requires
        0 <= nchars,
        0 <= ndigits,
        param.numcsize.width * (ndigits + 1) <= isize::MAX,
        param.inmargin + param.numcsize.width * (ndigits + 1) + param.sepmargin <= isize::MAX,
        param.inmargin * 2 + nchars * param.csize.width <= isize::MAX,
        param.inmargin * 2 + param.wmin * param.csize.width <= isize::MAX,
        param.inmargin + param.numcsize.width * (ndigits + 1) + param.sepmargin + param.inmargin * 2
            + nchars * param.csize.width <= isize::MAX,
        crow * param.lheight + param.inmargin * 2 <= isize::MAX,
        param.lmin * param.lheight + param.inmargin * 2 <= isize::MAX,
    ensures
        g.nchars == nchars,
        g.ndigits == ndigits,
        g.txoffset as int == spec_txoffset(
            param.numbering,
            param.inmargin as int,
            spec_numwid(param.numbering, param.numcsize.width as int, ndigits as int),
            param.sepmargin as int,
        ),
        g.txwidth as int == param.inmargin * 2 + nchars * param.csize.width,
        g.txwmin as int == param.inmargin * 2 + param.wmin * param.csize.width,
        g.cvwidth as int == g.txoffset + g.txwidth,
        g.cvheight as int == crow * param.lheight + param.inmargin * 2,
        g.cvhmin as int == param.lmin * param.lheight + param.inmargin * 2,
{
    let numwid: usize = if param.numbering {
        param.numcsize.width * ((ndigits as usize) + 1)
    } else {
        0
    };
    let txoffset: isize = if param.numbering {
        (param.inmargin + numwid + param.sepmargin) as isize
    } else {
        0
    };
    let txwidth: isize = (param.inmargin * 2 + (nchars as usize) * param.csize.width) as isize;
    let txwmin: isize = (param.inmargin * 2 + param.wmin * param.csize.width) as isize;
    let cvwidth: isize = txoffset + txwidth;
    let cvheight: isize = (crow * param.lheight + param.inmargin * 2) as isize;
    let cvhmin: isize = (param.lmin * param.lheight + param.inmargin * 2) as isize;
    Geo { nchars, ndigits, txoffset, txwidth, txwmin, cvwidth, cvheight, cvhmin }
}

/// The height of one page: its own rows between the vertical margins,
/// clamped upward to the shared canvas-height floor.
pub fn page_height(nrows: usize, lheight: usize, inmargin: usize, cvhmin: isize) -> (h: isize)
    requires
        nrows * lheight + inmargin * 2 <= isize::MAX,
    ensures
        h as int == ({
            let own = nrows * lheight + inmargin * 2;
            if cvhmin > own {
                cvhmin as int
            } else {
                own
            }
        }),
{
    let own: isize = (nrows * lheight + inmargin * 2) as isize;
    if cvhmin > own {
        cvhmin
    } else {
        own
    }
}

} // verus!
