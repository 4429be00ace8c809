//! The resolved configuration bundle and the numeric argument parsers that
//! fill it: plain decimal integers, positive integers, and the
//! `HEIGHTxWIDTH` character-size shorthand.

use vstd::arithmetic::div_mod::lemma_fundamental_div_mod;
use vstd::prelude::*;
use vstd::string::{StrSliceExecFns, StringExecFns};

verus! {

/// Width request that stands for "derive the value automatically".
pub const DIME_AUTO: usize = 99999;

/// A character cell size in points: height of the glyph box and width of
/// one cell.
#[derive(Debug, Clone, PartialEq, Eq, Structural)]
pub struct CharSize {
    pub width: usize,
    pub height: usize,
}

/// The fully resolved layout parameters, produced by the option layer and
/// consumed read-only by the whole pipeline.
#[derive(Debug)]
pub struct Param {
    pub font: String,
    pub csize: CharSize,
    pub numcsize: CharSize,
    pub lheight: usize,
    pub inmargin: usize,
    pub sepmargin: usize,
    pub frames: usize,
    pub tabstop: usize,
    pub wmin: usize,
    pub wmax: usize,
    pub lmin: usize,
    pub lmax: usize,
    pub braise: isize,
    pub gridpitch: String,
    pub ghpitch: usize,
    pub gvpitch: usize,
    pub raise: String,
    pub outmargin: String,
    pub abovegap: String,
    pub belowgap: String,
    pub leftgap: String,
    pub rightgap: String,
    pub lnooffset: usize,
    pub lnowidth: usize,
    pub spcmarking: bool,
    pub grid: bool,
    pub numbering: bool,
    pub standalone: bool,
    pub pagebreaking: bool,
}

/// A run configuration: the input files and the layout parameters.
#[derive(Debug)]
pub struct Config {
    pub files: Vec<String>,
    pub params: Param,
}

/// A decimal digit character.
pub open spec fn is_digit(c: char) -> bool {
    '0' <= c && c <= '9'
}

/// The numeric value of one digit character.
pub open spec fn digit_val(c: char) -> int {
    c as int - '0' as int
}

/// The value of an all-digit string, most significant digit first.
pub open spec fn digits_val(s: Seq<char>) -> int
    decreases s.len(),
{
    if s.len() == 0 {
        0
    } else {
        digits_val(s.drop_last()) * 10 + digit_val(s.last())
    }
}

/// True when `s` consists of digits only and is not empty.
pub open spec fn all_digits(s: Seq<char>) -> bool {
    s.len() > 0 && forall|i: int| 0 <= i < s.len() ==> is_digit(#[trigger] s[i])
}

/// The digits of an unsigned decimal: everything after an optional plus
/// sign.
pub open spec fn uint_body(s: Seq<char>) -> Seq<char> {
    if s.len() > 0 && s[0] == '+' {
        s.drop_first()
    } else {
        s
    }
}

/// True when `s` is a well-formed unsigned decimal.
pub open spec fn valid_uint_str(s: Seq<char>) -> bool {
    all_digits(uint_body(s))
}

/// The value of a well-formed unsigned decimal.
pub open spec fn uint_str_val(s: Seq<char>) -> int {
    digits_val(uint_body(s))
}

/// The digits of a signed decimal: everything after an optional plus or
/// minus sign.
pub open spec fn int_body(s: Seq<char>) -> Seq<char> {
    if s.len() > 0 && (s[0] == '+' || s[0] == '-') {
        s.drop_first()
    } else {
        s
    }
}

/// True when `s` is a well-formed signed decimal.
pub open spec fn valid_int_str(s: Seq<char>) -> bool {
    all_digits(int_body(s))
}

/// The value of a well-formed signed decimal.
pub open spec fn int_str_val(s: Seq<char>) -> int {
    if s.len() > 0 && s[0] == '-' {
        -digits_val(int_body(s))
    } else {
        digits_val(int_body(s))
    }
}

/// An all-digit string has a non-negative value.
pub proof fn lemma_digits_val_nonneg(s: Seq<char>)
    requires
        forall|i: int| 0 <= i < s.len() ==> is_digit(#[trigger] s[i]),
    ensures
        0 <= digits_val(s),
    decreases s.len(),
{
    if s.len() > 0 {
        lemma_digits_val_nonneg(s.drop_last());
    }
}

/// Extending an all-digit string never shrinks its value.
proof fn lemma_digits_val_take_le(s: Seq<char>, k: int)
    requires
        0 <= k <= s.len(),
        forall|i: int| 0 <= i < s.len() ==> is_digit(#[trigger] s[i]),
    ensures
        digits_val(s.take(k)) <= digits_val(s),
    decreases s.len() - k,
{
    if k < s.len() {
        lemma_digits_val_take_le(s, k + 1);
        assert(s.take(k + 1).drop_last() =~= s.take(k));
        assert(s.take(k + 1).last() == s[k]);
        lemma_digits_val_nonneg(s.take(k));
        assert(digits_val(s.take(k)) <= digits_val(s.take(k + 1)));
    } else {
        assert(s.take(k) =~= s);
    }
}

/// Parses the digits of `s[from..]` into a value at most `limit`: `Some`
/// exactly when that tail is non-empty, all digits, and its value fits.
fn parse_digits(s: &str, from: usize, limit: usize) -> (r: Option<usize>)
    requires
        from <= s@.len(),
        10 <= limit,
    ensures
        ({
            let b = s@.skip(from as int);
            match r {
                Some(v) => all_digits(b) && v as int == digits_val(b) && digits_val(b)
                    <= limit as int,
                None => !(all_digits(b) && digits_val(b) <= limit as int),
            }
        }),
{
    let ghost b = s@.skip(from as int);
    let n = s.unicode_len();
    if from >= n {
        return None;
    }
    let mut acc: usize = 0;
    let mut i: usize = from;
    while i < n
        invariant
            b == s@.skip(from as int),
            from <= i <= n,
            n == s@.len(),
            forall|q: int| from <= q < i ==> is_digit(#[trigger] s@[q]),
            acc as int == digits_val(s@.subrange(from as int, i as int)),
            acc <= limit,
            10 <= limit,
        decreases n - i,
    {
        let c = s.get_char(i);
        let cu = c as u32;
        if cu < 48 || cu > 57 {
            proof {
                assert(!is_digit(b[i - from]));
            }
            return None;
        }
        let d = (cu - 48) as usize;
        proof {
            assert(is_digit(s@[i as int]));
            assert(d as int == digit_val(s@[i as int]));
            assert(s@.subrange(from as int, i + 1).drop_last() =~= s@.subrange(
                from as int,
                i as int,
            ));
            assert(s@.subrange(from as int, i + 1).last() == s@[i as int]);
        }
        if acc > (limit - d) / 10 {
            proof {
                lemma_fundamental_div_mod(limit as int - d, 10);
                assert(acc as int * 10 >= ((limit - d) / 10 as int + 1) * 10);
                assert(digits_val(s@.subrange(from as int, i + 1)) > limit as int);
                if all_digits(b) {
                    assert(s@.subrange(from as int, i + 1) =~= b.take(i + 1 - from));
                    lemma_digits_val_take_le(b, i + 1 - from);
                }
            }
            return None;
        }
        proof {
            lemma_fundamental_div_mod(limit as int - d, 10);
            assert(acc as int * 10 + d <= limit as int) by {
                assert(acc as int <= (limit - d) / 10 as int);
                assert(acc as int * 10 <= ((limit - d) / 10 as int) * 10);
            }
        }
        acc = acc * 10 + d;
        i = i + 1;
    }
    proof {
        assert(s@.subrange(from as int, n as int) =~= b);
    }
    Some(acc)
}

/// Parses an unsigned decimal integer, as the numeric options require: an
/// optional plus sign then digits. Returns the parsed value, or the input
/// itself as the error exactly when the input is not a well-formed unsigned
/// decimal that fits.
pub fn parse_uint(val: &str) -> (r: Result<usize, String>)
    ensures
        ({
            if valid_uint_str(val@) && uint_str_val(val@) <= usize::MAX as int {
                r matches Ok(v) && v as int == uint_str_val(val@)
            } else {
                r matches Err(e) && e@ == val@
            }
        }),
{
    let n = s_len(val);
    let from: usize = if n > 0 && val.get_char(0) == '+' {
        1
    } else {
        0
    };
    proof {
        assert(uint_body(val@) =~= val@.skip(from as int));
    }
    match parse_digits(val, from, usize::MAX) {
        Some(v) => Ok(v),
        None => Err(String::from_str(val)),
    }
}

/// The character length of a string slice.
fn s_len(s: &str) -> (n: usize)
    ensures
        n == s@.len(),
{
    s.unicode_len()
}

/// Parses a positive decimal integer: as `parse_uint`, but zero is rejected
/// like any malformed input, with the input itself as the error.
pub fn parse_positive_int(val: &str) -> (r: Result<usize, String>)
    ensures
        ({
            if valid_uint_str(val@) && 0 < uint_str_val(val@) <= usize::MAX as int {
                r matches Ok(v) && v as int == uint_str_val(val@)
            } else {
                r matches Err(e) && e@ == val@
            }
        }),
{
    match parse_uint(val) {
        Ok(v) => {
            if v > 0 {
                Ok(v)
            } else {
                Err(String::from_str(val))
            }
        },
        Err(e) => Err(e),
    }
}

/// Parses a signed decimal integer: an optional plus or minus sign then
/// digits. Returns the parsed value, or the input itself as the error
/// exactly when the input is not a well-formed signed decimal that fits.
pub fn parse_int(val: &str) -> (r: Result<isize, String>)
    ensures
        ({
            if valid_int_str(val@) && isize::MIN as int <= int_str_val(val@) <= isize::MAX as int {
                r matches Ok(v) && v as int == int_str_val(val@)
            } else {
                r matches Err(e) && e@ == val@
            }
        }),
{
    let n = s_len(val);
    let neg = n > 0 && val.get_char(0) == '-';
    let from: usize = if n > 0 && (neg || val.get_char(0) == '+') {
        1
    } else {
        0
    };
    proof {
        assert(int_body(val@) =~= val@.skip(from as int));
    }
    let limit: usize = if neg {
        (isize::MAX as usize) + 1
    } else {
        isize::MAX as usize
    };
    match parse_digits(val, from, limit) {
        Some(v) => {
            if neg {
                if v > isize::MAX as usize {
                    Ok(isize::MIN)
                } else {
                    Ok(-(v as isize))
                }
            } else {
                Ok(v as isize)
            }
        },
        None => Err(String::from_str(val)),
    }
}

/// Number of `'x'` separators in the string.
pub open spec fn count_x(s: Seq<char>) -> int
    decreases s.len(),
{
    if s.len() == 0 {
        0
    } else {
        count_x(s.drop_last()) + if s.last() == 'x' {
            1int
        } else {
            0int
        }
    }
}

/// Index of the first `'x'`, or the length when there is none.
pub open spec fn first_x(s: Seq<char>) -> int
    decreases s.len(),
{
    if s.len() == 0 {
        0
    } else if s[0] == 'x' {
        0
    } else {
        1 + first_x(s.drop_first())
    }
}

/// A position with only non-`'x'` characters before it, holding an `'x'`
/// unless it is the end, is the first `'x'` position.
proof fn lemma_first_x_at(s: Seq<char>, p: int)
    requires
        0 <= p <= s.len(),
        forall|q: int| 0 <= q < p ==> s[q] != 'x',
        p < s.len() ==> s[p] == 'x',
    ensures
        first_x(s) == p,
    decreases p,
{
    if s.len() > 0 && p > 0 {
        lemma_first_x_at(s.drop_first(), p - 1);
    }
}

/// Parses the `HEIGHT` or `HEIGHTxWIDTH` character-size shorthand. One
/// piece gives the height with half of it as the width; two pieces give
/// height then width; more than two pieces fall back to the built-in
/// default size. A piece that is not an unsigned decimal that fits is the
/// error.
pub fn parse_2d_int(val: &str) -> (r: Result<CharSize, String>)
    ensures
        ({
            let s = val@;
            let p = first_x(s);
            let a = s.take(p);
            let b = s.skip(p + 1);
            if count_x(s) == 0 {
                if valid_uint_str(s) && uint_str_val(s) <= usize::MAX as int {
                    r matches Ok(cs) && cs.height as int == uint_str_val(s) && cs.width as int
                        == uint_str_val(s) / 2
                } else {
                    r matches Err(e) && e@ == s
                }
            } else if count_x(s) == 1 {
                if valid_uint_str(a) && uint_str_val(a) <= usize::MAX as int {
                    if valid_uint_str(b) && uint_str_val(b) <= usize::MAX as int {
                        r matches Ok(cs) && cs.height as int == uint_str_val(a) && cs.width as int
                            == uint_str_val(b)
                    } else {
                        r matches Err(e) && e@ == b
                    }
                } else {
                    r matches Err(e) && e@ == a
                }
            } else {
                r matches Ok(cs) && cs.width == 5 && cs.height == 10
            }
        }),
{
    let n = s_len(val);
    let mut cnt: usize = 0;
    let mut firstpos: usize = n;
    let mut i: usize = 0;
    while i < n
        invariant
            n == val@.len(),
            i <= n,
            cnt as int == count_x(val@.take(i as int)),
            cnt <= i,
            firstpos <= n,
            firstpos == n ==> cnt == 0,
            firstpos == n ==> forall|q: int| 0 <= q < i ==> val@[q] != 'x',
            firstpos < n ==> firstpos < i && val@[firstpos as int] == 'x' && (forall|q: int|
                0 <= q < firstpos ==> val@[q] != 'x'),
        decreases n - i,
    {
        proof {
            assert(val@.take(i + 1).drop_last() =~= val@.take(i as int));
            assert(val@.take(i + 1).last() == val@[i as int]);
        }
        if val.get_char(i) == 'x' {
            if firstpos == n {
                firstpos = i;
            }
            cnt = cnt + 1;
        }
        i = i + 1;
    }
    proof {
        assert(val@.take(n as int) =~= val@);
        if firstpos == n {
            lemma_first_x_at(val@, n as int);
        } else {
            lemma_first_x_at(val@, firstpos as int);
        }
    }
    if cnt == 0 {
        match parse_uint(val) {
            Ok(h) => Ok(CharSize { width: h / 2, height: h }),
            Err(e) => Err(e),
        }
    } else if cnt == 1 {
        let a = val.substring_char(0, firstpos);
        let b = val.substring_char(firstpos + 1, n);
        proof {
            assert(a@ =~= val@.take(firstpos as int));
            assert(b@ =~= val@.skip(firstpos + 1));
        }
        match parse_uint(a) {
            Ok(h) => {
                match parse_uint(b) {
                    Ok(w) => Ok(CharSize { width: w, height: h }),
                    Err(e) => Err(e),
                }
            },
            Err(e) => Err(e),
        }
    } else {
        Ok(CharSize { width: 5, height: 10 })
    }
}

} // verus!
