//! Diagnostic rendering of tokens and rows: a one-letter kind tag with the
//! payload quoted as Rust's `Debug` form renders a token, and a row shows
//! its origin line, cached width, wrap mark and tokens.

use vstd::prelude::*;
use vstd::string::{StrSliceExecFns, StringExecFns};

use crate::row::{Row, RowModel};
use crate::token::{KindModel, Token, TokenKind, TokenModel};

verus! {

/// What the `Debug` formatting of a string slice yields: the quoted,
/// escaped rendering, a function of the characters alone.
pub uninterp spec fn debug_fmt(s: Seq<char>) -> Seq<char>;

/// Relies on the `Debug` impl of `str` (via `format!("{:?}", ..)`): its
/// output depends on the characters of the slice alone.
#[verifier::external_body]
fn debug_str(s: &str) -> (r: String)
    ensures
        r@ == debug_fmt(s@),
{
    format!("{:?}", s)
}

/// The digit character for a value below ten.
pub open spec fn digit_char(d: int) -> char {
    if d == 0 {
        '0'
    } else if d == 1 {
        '1'
    } else if d == 2 {
        '2'
    } else if d == 3 {
        '3'
    } else if d == 4 {
        '4'
    } else if d == 5 {
        '5'
    } else if d == 6 {
        '6'
    } else if d == 7 {
        '7'
    } else if d == 8 {
        '8'
    } else {
        '9'
    }
}

/// The decimal digits of a non-negative value, most significant first.
pub open spec fn dec_digits(n: int) -> Seq<char>
    decreases n,
{
    if n < 10 {
        seq![digit_char(n)]
    } else {
        dec_digits(n / 10).push(digit_char(n % 10))
    }
}

/// The decimal rendering of an integer, with a leading minus sign when
/// negative.
pub open spec fn dec_str(n: int) -> Seq<char> {
    if n < 0 {
        seq!['-'] + dec_digits(-n)
    } else {
        dec_digits(n)
    }
}

/// `k` spaces.
pub open spec fn spaces(k: int) -> Seq<char>
    decreases k,
{
    if k <= 0 {
        Seq::empty()
    } else {
        spaces(k - 1).push(' ')
    }
}

/// `s` right-aligned in a field of `w` cells; unchanged when already as
/// wide.
pub open spec fn pad_left(s: Seq<char>, w: int) -> Seq<char> {
    if s.len() >= w {
        s
    } else {
        spaces(w - s.len()) + s
    }
}

/// `s` left-aligned in a field of `w` cells; unchanged when already as
/// wide.
pub open spec fn pad_right(s: Seq<char>, w: int) -> Seq<char> {
    if s.len() >= w {
        s
    } else {
        s + spaces(w - s.len())
    }
}

/// The rendering of a token kind: a one-letter tag with the quoted
/// payload, or a bare word for the payload-free kinds.
pub open spec fn kind_fmt(k: KindModel) -> Seq<char> {
    match k {
        KindModel::Text(s) => seq!['t'] + debug_fmt(s),
        KindModel::Escape(s) => seq!['e'] + debug_fmt(s),
        KindModel::Ascii(s) => seq!['a'] + debug_fmt(s),
        KindModel::Misc(s) => seq!['m'] + debug_fmt(s),
        KindModel::Hole(s) => seq!['h'] + debug_fmt(s),
        KindModel::Skip => seq!['s', 'k', 'i', 'p'],
        KindModel::Nop => seq!['n', 'o', 'p'],
    }
}

/// The rendering of a token: its kind then its width.
pub open spec fn token_fmt(t: TokenModel) -> Seq<char> {
    kind_fmt(t.kind) + dec_str(t.width)
}

/// The token renderings joined with single spaces.
pub open spec fn join_tokens(ts: Seq<TokenModel>) -> Seq<char>
    decreases ts.len(),
{
    if ts.len() == 0 {
        Seq::empty()
    } else if ts.len() == 1 {
        token_fmt(ts[0])
    } else {
        join_tokens(ts.drop_last()) + seq![' '] + token_fmt(ts.last())
    }
}

/// The rendering of a row: the origin line right-aligned in five cells,
/// the width left-aligned in three, the wrap mark, then the tokens.
pub open spec fn row_fmt(r: RowModel) -> Seq<char> {
    pad_left(dec_str(r.lineno), 5) + seq![':'] + pad_right(dec_str(r.width), 3) + seq![' '] + (
    if r.setret {
        seq!['*']
    } else {
        seq!['.']
    }) + seq![' '] + join_tokens(r.tokens)
}

/// The single-character string for a digit value.
fn digit_str(d: usize) -> (r: &'static str)
    requires
        d < 10,
    ensures
        r@ =~= seq![digit_char(d as int)],
{
    if d == 0 {
        proof {
            reveal_strlit("0");
        }
        "0"
    } else if d == 1 {
        proof {
            reveal_strlit("1");
        }
        "1"
    } else if d == 2 {
        proof {
            reveal_strlit("2");
        }
        "2"
    } else if d == 3 {
        proof {
            reveal_strlit("3");
        }
        "3"
    } else if d == 4 {
        proof {
            reveal_strlit("4");
        }
        "4"
    } else if d == 5 {
        proof {
            reveal_strlit("5");
        }
        "5"
    } else if d == 6 {
        proof {
            reveal_strlit("6");
        }
        "6"
    } else if d == 7 {
        proof {
            reveal_strlit("7");
        }
        "7"
    } else if d == 8 {
        proof {
            reveal_strlit("8");
        }
        "8"
    } else {
        proof {
            reveal_strlit("9");
        }
        "9"
    }
}

/// Renders a non-negative value in decimal.
fn fmt_usize(n: usize) -> (r: String)
    ensures
        r@ == dec_digits(n as int),
    decreases n,
{
    if n < 10 {
        String::from_str(digit_str(n))
    } else {
        let mut s = fmt_usize(n / 10);
        s.append(digit_str(n % 10));
        proof {
            assert(s@ =~= dec_digits(n as int));
        }
        s
    }
}

/// Renders an integer in decimal, minus sign included.
fn fmt_isize(n: isize) -> (r: String)
    ensures
        r@ == dec_str(n as int),
{
    if n >= 0 {
        fmt_usize(n as usize)
    } else {
        let m: usize = ((-(n + 1)) as usize) + 1;
        proof {
            reveal_strlit("-");
        }
        let mut s = String::from_str("-");
        let digits = fmt_usize(m);
        s.append(digits.as_str());
        proof {
            assert(s@ =~= dec_str(n as int));
        }
        s
    }
}

/// Appends spaces until the rendering is at least `w` cells wide, on the
/// left.
fn pad_left_exec(s: &String, w: usize) -> (r: String)
    ensures
        r@ == pad_left(s@, w as int),
{
    let n = s.as_str().unicode_len();
    let mut out = String::new();
    let mut k: usize = n;
    while k < w
        invariant
            n <= k,
            k <= w || k == n,
            n == s@.len(),
            out@ == spaces(k - n),
        decreases w - k,
    {
        proof {
            reveal_strlit(" ");
        }
        out.append(" ");
        k = k + 1;
        proof {
            assert(out@ =~= spaces(k - n));
        }
    }
    out.append(s.as_str());
    proof {
        if n >= w {
            assert(spaces(0) =~= Seq::<char>::empty());
            assert(out@ =~= s@);
        }
    }
    out
}

/// Appends spaces until the rendering is at least `w` cells wide, on the
/// right.
fn pad_right_exec(s: &String, w: usize) -> (r: String)
    ensures
        r@ == pad_right(s@, w as int),
{
    let n = s.as_str().unicode_len();
    let mut out = String::from_str(s.as_str());
    let mut k: usize = n;
    while k < w
        invariant
            n <= k,
            k <= w || k == n,
            n == s@.len(),
            out@ == s@ + spaces(k - n),
        decreases w - k,
    {
        proof {
            reveal_strlit(" ");
        }
        out.append(" ");
        k = k + 1;
        proof {
            assert(out@ =~= s@ + spaces(k - n));
        }
    }
    proof {
        if n >= w {
            assert(spaces(0) =~= Seq::<char>::empty());
            assert(out@ =~= s@);
        }
    }
    out
}

impl TokenKind {
    /// Renders the kind as its one-letter tag with the quoted payload, or
    /// as a bare word for `Skip` and the reserved no-op.
    pub fn fmt(&self) -> (r: String)
        ensures
            r@ == kind_fmt(self@),
    {
        match self {
            TokenKind::_Text(s) => {
                proof {
                    reveal_strlit("t");
                }
                let mut out = String::from_str("t");
                let q = debug_str(s.as_str());
                out.append(q.as_str());
                proof {
                    assert(out@ =~= kind_fmt(self@));
                }
                out
            },
            TokenKind::Escape(s) => {
                proof {
                    reveal_strlit("e");
                }
                let mut out = String::from_str("e");
                let q = debug_str(s.as_str());
                out.append(q.as_str());
                proof {
                    assert(out@ =~= kind_fmt(self@));
                }
                out
            },
            TokenKind::Ascii(s) => {
                proof {
                    reveal_strlit("a");
                }
                let mut out = String::from_str("a");
                let q = debug_str(s.as_str());
                out.append(q.as_str());
                proof {
                    assert(out@ =~= kind_fmt(self@));
                }
                out
            },
            TokenKind::Misc(s) => {
                proof {
                    reveal_strlit("m");
                }
                let mut out = String::from_str("m");
                let q = debug_str(s.as_str());
                out.append(q.as_str());
                proof {
                    assert(out@ =~= kind_fmt(self@));
                }
                out
            },
            TokenKind::Hole(s) => {
                proof {
                    reveal_strlit("h");
                }
                let mut out = String::from_str("h");
                let q = debug_str(s.as_str());
                out.append(q.as_str());
                proof {
                    assert(out@ =~= kind_fmt(self@));
                }
                out
            },
            TokenKind::Skip => {
                proof {
                    reveal_strlit("skip");
                }
                let out = String::from_str("skip");
                proof {
                    assert(out@ =~= kind_fmt(self@));
                }
                out
            },
            TokenKind::_Nop => {
                proof {
                    reveal_strlit("nop");
                }
                let out = String::from_str("nop");
                proof {
                    assert(out@ =~= kind_fmt(self@));
                }
                out
            },
        }
    }
}

impl Token {
    /// Renders the token: its kind then its width.
    pub fn fmt(&self) -> (r: String)
        ensures
            r@ == token_fmt(self@),
    {
        let mut out = self.kind.fmt();
        let wstr = fmt_isize(self.width);
        out.append(wstr.as_str());
        out
    }
}

/// Renders the tokens joined with single spaces.
fn fmt_tokens(tokens: &Vec<Token>) -> (r: String)
    ensures
        r@ == join_tokens(tokens.deep_view()),
{
    let ghost tsm = tokens.deep_view();
    let mut out = String::new();
    let mut i: usize = 0;
    proof {
        assert(tsm.take(0) =~= Seq::<TokenModel>::empty());
    }
    while i < tokens.len()
        invariant
            tsm == tokens.deep_view(),
            i <= tokens@.len(),
            out@ == join_tokens(tsm.take(i as int)),
        decreases tokens@.len() - i,
    {
        proof {
            assert(tsm.take(i + 1).drop_last() =~= tsm.take(i as int));
            assert(tsm.take(i + 1).last() == tsm[i as int]);
        }
        if i > 0 {
            proof {
                reveal_strlit(" ");
            }
            out.append(" ");
        }
        let tstr = tokens[i].fmt();
        out.append(tstr.as_str());
        i = i + 1;
        proof {
            assert(out@ =~= join_tokens(tsm.take(i as int)));
        }
    }
    proof {
        assert(tsm.take(tokens@.len() as int) =~= tsm);
    }
    out
}

impl Row {
    /// Renders the row: origin line right-aligned in five cells, cached
    /// width left-aligned in three, the wrap mark (`*` wrapped, `.` not),
    /// then the tokens.
    pub fn fmt(self) -> (r: String)
        ensures
            r@ == row_fmt(self@),
    {
        let lstr = fmt_isize(self.lineno);
        let wstr = fmt_isize(self.width);
        let mut out = pad_left_exec(&lstr, 5);
        proof {
            reveal_strlit(":");
            reveal_strlit(" ");
            reveal_strlit("*");
            reveal_strlit(".");
        }
        out.append(":");
        let wpad = pad_right_exec(&wstr, 3);
        out.append(wpad.as_str());
        out.append(" ");
        if self.setret {
            out.append("*");
        } else {
            out.append(".");
        }
        out.append(" ");
        let tks = fmt_tokens(&self.tokens);
        out.append(tks.as_str());
        proof {
            assert(out@ =~= row_fmt(self@));
        }
        out
    }
}

} // verus!
