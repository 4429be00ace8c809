//! Grapheme classification: splits a line into grapheme clusters and turns
//! the cluster at a given position into one width-tagged token.
//!
//! Classification rules, in priority order: a horizontal tab becomes a
//! `Skip` whose width advances the column to the next tab stop; an ESC
//! (0x1b) opens an escape sequence that greedily consumes clusters up to and
//! including the first one ending in `'m'` (or the end of the line) and is
//! budgeted one cell; a group separator (0x1d) consumes the following
//! cluster as a `Hole` label of width 4 (a line ending right after the
//! marker produces nothing); any other ASCII cluster is an `Ascii` of width
//! 1; any non-ASCII cluster is a `Misc` of width 2.

use vstd::arithmetic::div_mod::{
    lemma_fundamental_div_mod, lemma_fundamental_div_mod_converse_mod, lemma_mod_bound,
};
use vstd::prelude::*;
use vstd::string::{StrSliceExecFns, StringExecFns, StringExecFnsIsAscii};
use vstd::utf8::is_ascii_chars;

use crate::token::{KindModel, Token, TokenKind, TokenModel};

use unicode_segmentation::UnicodeSegmentation;

verus! {

/// The decomposition of a line into extended grapheme clusters.
pub uninterp spec fn graphemes_of(s: Seq<char>) -> Seq<Seq<char>>;

/// Relies on `unicode_segmentation::UnicodeSegmentation::graphemes` with
/// extended cluster boundaries: it yields the grapheme clusters of the
/// string, in order; the decomposition depends on the characters alone.
#[verifier::external_body]
pub(crate) fn split_graphemes(s: &str) -> (r: Vec<String>)
    ensures
        r.deep_view() == graphemes_of(s@),
{
    s.graphemes(true).map(|g| g.to_string()).collect()
}

/// Width, in cells, that a tab starting at column `x` advances: up to the
/// next multiple of `tabstop`, never zero.
pub open spec fn tab_width(x: int, tabstop: int) -> int {
    (x / tabstop) * tabstop + tabstop - x
}

/// The tab skip always lands on a tab stop and is never zero nor wider than
/// one whole tab stop: `0 < tab_width(x, t) <= t` and `t` divides
/// `x + tab_width(x, t)`.
pub proof fn lemma_tab_width(x: int, t: int)
    requires
        0 <= x,
        1 <= t,
    ensures
        1 <= tab_width(x, t) <= t,
        (x + tab_width(x, t)) % t == 0,
{
    lemma_fundamental_div_mod(x, t);
    lemma_mod_bound(x, t);
    assert(t * (x / t) == (x / t) * t) by (nonlinear_arith);
    assert(tab_width(x, t) == t - x % t);
    assert(x + tab_width(x, t) == ((x / t) + 1) * t) by (nonlinear_arith)
        requires
            x == (x / t) * t + x % t,
            tab_width(x, t) == t - x % t,
    ;
    lemma_fundamental_div_mod_converse_mod(x + tab_width(x, t), t, (x / t) + 1, 0);
}

/// True when the grapheme cluster is exactly the single character `c`.
pub open spec fn grapheme_is(g: Seq<char>, c: char) -> bool {
    g.len() == 1 && g[0] == c
}

/// True when the grapheme cluster ends in `'m'`, the terminator the escape
/// scan looks for.
pub open spec fn ends_m(g: Seq<char>) -> bool {
    g.len() > 0 && g[g.len() - 1] == 'm'
}

/// One past the last cluster an escape sequence starting its scan at `j`
/// consumes: the index right after the first cluster at or after `j` that
/// ends in `'m'`, or the end of the line if none does.
pub open spec fn escape_end(gs: Seq<Seq<char>>, j: int) -> int
    decreases gs.len() - j,
{
    if j < 0 || j >= gs.len() {
        gs.len() as int
    } else if ends_m(gs[j]) {
        j + 1
    } else {
        escape_end(gs, j + 1)
    }
}

/// The concatenation of the clusters `gs[i..j]`.
pub open spec fn concat_range(gs: Seq<Seq<char>>, i: int, j: int) -> Seq<char>
    decreases j - i,
{
    if j <= i {
        Seq::empty()
    } else {
        concat_range(gs, i, j - 1) + gs[j - 1]
    }
}

/// The token produced for the cluster at `gs[i]` when the column is `x`,
/// paired with the index of the first cluster not consumed; `None` when the
/// line ends right after a group-separator marker, which closes the line
/// without a further token.
pub open spec fn classify_at(gs: Seq<Seq<char>>, i: int, x: int, tabstop: int) -> Option<
    (TokenModel, int),
> {
    let g = gs[i];
    if is_ascii_chars(g) {
        if grapheme_is(g, '\t') {
            Some((TokenModel { kind: KindModel::Skip, width: tab_width(x, tabstop) }, i + 1))
        } else if grapheme_is(g, '\u{1b}') {
            let e = escape_end(gs, i + 1);
            Some((TokenModel { kind: KindModel::Escape(concat_range(gs, i, e)), width: 1 }, e))
        } else if grapheme_is(g, '\u{1d}') {
            if i + 1 < gs.len() {
                Some((TokenModel { kind: KindModel::Hole(gs[i + 1]), width: 4 }, i + 2))
            } else {
                None
            }
        } else {
            Some((TokenModel { kind: KindModel::Ascii(g), width: 1 }, i + 1))
        }
    } else {
        Some((TokenModel { kind: KindModel::Misc(g), width: 2 }, i + 1))
    }
}

/// Upper bound on any token width: a whole tab stop or the placeholder
/// width, whichever is larger.
pub open spec fn max_token_width(tabstop: int) -> int {
    if tabstop > 4 {
        tabstop
    } else {
        4
    }
}

/// The escape scan stays within the line and consumes at least the cluster
/// it starts at.
pub proof fn lemma_escape_end_bounds(gs: Seq<Seq<char>>, j: int)
    requires
        0 <= j <= gs.len(),
    ensures
        j <= escape_end(gs, j) <= gs.len(),
    decreases gs.len() - j,
{
    if j < gs.len() && !ends_m(gs[j]) {
        lemma_escape_end_bounds(gs, j + 1);
    }
}

/// When no cluster in `[j, gs.len())` ends in `'m'`, the escape scan runs to
/// the end of the line.
proof fn lemma_escape_end_none(gs: Seq<Seq<char>>, j: int)
    requires
        0 <= j <= gs.len(),
        forall|m: int| j <= m < gs.len() ==> !ends_m(gs[m]),
    ensures
        escape_end(gs, j) == gs.len(),
    decreases gs.len() - j,
{
    if j < gs.len() {
        lemma_escape_end_none(gs, j + 1);
    }
}

/// When `gs[k - 1]` is the first cluster at or after `j` ending in `'m'`,
/// the escape scan stops right after it.
proof fn lemma_escape_end_found(gs: Seq<Seq<char>>, j: int, k: int)
    requires
        0 <= j < k <= gs.len(),
        forall|m: int| j <= m < k - 1 ==> !ends_m(gs[m]),
        ends_m(gs[k - 1]),
    ensures
        escape_end(gs, j) == k,
    decreases k - j,
{
    if j < k - 1 {
        lemma_escape_end_found(gs, j + 1, k);
    }
}

/// True when the string ends in `'m'`.
fn ends_with_m(g: &String) -> (b: bool)
    ensures
        b == ends_m(g@),
{
    let n = g.as_str().unicode_len();
    if n == 0 {
        false
    } else {
        g.as_str().get_char(n - 1) == 'm'
    }
}

/// True when the string is exactly the single character `c`.
fn is_single_char(g: &String, c: char) -> (b: bool)
    ensures
        b == grapheme_is(g@, c),
{
    g.as_str().unicode_len() == 1 && g.as_str().get_char(0) == c
}

/// Classifies the cluster `gs[i]` at column `x`, returning the token and the
/// index of the first cluster not consumed; `None` reproduces the early end
/// of line after a group-separator marker.
pub fn classify(gs: &Vec<String>, i: usize, x: isize, tabstop: isize) -> (r: Option<(Token, usize)>)
    requires
        i < gs@.len(),
        0 <= x,
        1 <= tabstop,
        x + tabstop <= isize::MAX,
    ensures
        ({
            let m = classify_at(gs.deep_view(), i as int, x as int, tabstop as int);
            match r {
                Some(p) => {
                    &&& m == Some((p.0@, p.1 as int))
                    &&& i < p.1 <= gs@.len()
                    &&& 1 <= p.0@.width <= max_token_width(tabstop as int)
                },
                None => m is None,
            }
        }),
{
    let ghost gsm = gs.deep_view();
    let n = gs.len();
    let g = &gs[i];
    assert(g@ == gsm[i as int]);
    if g.is_ascii() {
        if is_single_char(g, '\t') {
            let xu = x as usize;
            let tu = tabstop as usize;
            proof {
                lemma_tab_width(x as int, tabstop as int);
                lemma_fundamental_div_mod(xu as int, tu as int);
                lemma_mod_bound(xu as int, tu as int);
                assert((tu as int) * (xu as int / tu as int) == (xu as int / tu as int) * (
                tu as int)) by (nonlinear_arith);
            }
            let nx = (xu / tu) * tu + tu;
            let tk = Token { kind: TokenKind::Skip, width: (nx - xu) as isize };
            assert(tk@.width == tab_width(x as int, tabstop as int));
            Some((tk, i + 1))
        } else if is_single_char(g, '\u{1b}') {
            let mut seqstr = String::from_str(g.as_str());
            let mut k: usize = i + 1;
            let mut done = false;
            proof {
                assert(concat_range(gsm, i as int, i as int) =~= Seq::<char>::empty());
                assert(concat_range(gsm, i as int, i + 1) =~= gsm[i as int]);
            }
            while k < gs.len() && !done
                invariant
                    i + 1 <= k <= gs@.len(),
                    gsm == gs.deep_view(),
                    seqstr@ == concat_range(gsm, i as int, k as int),
                    done ==> i + 1 < k && ends_m(gsm[k - 1]) && (forall|m: int|
                        i + 1 <= m < k - 1 ==> !ends_m(gsm[m])),
                    !done ==> forall|m: int| i + 1 <= m < k ==> !ends_m(gsm[m]),
                decreases gs@.len() - k,
            {
                let gk = &gs[k];
                assert(gk@ == gsm[k as int]);
                seqstr.append(gk.as_str());
                if ends_with_m(gk) {
                    done = true;
                }
                k = k + 1;
            }
            proof {
                if done {
                    lemma_escape_end_found(gsm, i + 1, k as int);
                } else {
                    lemma_escape_end_none(gsm, i + 1);
                }
                assert(escape_end(gsm, i + 1) == k);
            }
            let tk = Token { kind: TokenKind::Escape(seqstr), width: 1 };
            Some((tk, k))
        } else if is_single_char(g, '\u{1d}') {
            if i + 1 < gs.len() {
                let label = gs[i + 1].clone();
                assert(label@ == gsm[i + 1]);
                let tk = Token { kind: TokenKind::Hole(label), width: 4 };
                Some((tk, i + 2))
            } else {
                None
            }
        } else {
            let tk = Token { kind: TokenKind::Ascii(g.clone()), width: 1 };
            Some((tk, i + 1))
        }
    } else {
        let tk = Token { kind: TokenKind::Misc(g.clone()), width: 2 };
        Some((tk, i + 1))
    }
}

} // verus!
