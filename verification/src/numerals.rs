//! Decimal digit counting for the line-number gutter: how many digit cells
//! the numbering of a row stream needs.

use vstd::arithmetic::div_mod::{
    lemma_div_is_ordered, lemma_div_multiples_vanish, lemma_fundamental_div_mod_converse,
};
use vstd::prelude::*;

use crate::config::DIME_AUTO;

verus! {

/// Number of decimal digits of `n`; one digit for everything below ten,
/// zero and negatives included.
pub open spec fn ndigits_of(n: int) -> int
    decreases n,
{
    if n < 10 {
        1
    } else {
        1 + ndigits_of(n / 10)
    }
}

/// Ten to the power `k` (one for `k <= 0`).
pub open spec fn pow10(k: int) -> int
    decreases k,
{
    if k <= 0 {
        1
    } else {
        10 * pow10(k - 1)
    }
}

/// Powers of ten are positive.
pub proof fn lemma_pow10_pos(k: int)
    ensures
        1 <= pow10(k),
    decreases k,
{
    if k > 0 {
        lemma_pow10_pos(k - 1);
    }
}

/// LAW (digit count). No rows take one digit of numbering; a row count
/// between `10^(k-1)` and `10^k - 1` takes exactly `k` digits.
pub proof fn lemma_digit_count(n: int, k: int)
    requires
        1 <= k,
        (n == 0 && k == 1) || (pow10(k - 1) <= n < pow10(k)),
    ensures
        ndigits_of(n) == k,
    decreases k,
{
    if n == 0 && k == 1 {
    } else if k == 1 {
        assert(pow10(0) == 1);
        assert(pow10(1) == 10);
    } else {
        lemma_pow10_pos(k - 2);
        assert(pow10(k - 1) == 10 * pow10(k - 2));
        assert(n >= 10);
        // lower bound: n / 10 >= pow10(k - 2)
        lemma_div_is_ordered(10 * pow10(k - 2), n, 10);
        lemma_div_multiples_vanish(pow10(k - 2), 10);
        // upper bound: n / 10 <= pow10(k - 1) - 1
        lemma_div_is_ordered(n, 10 * pow10(k - 1) - 1, 10);
        lemma_fundamental_div_mod_converse(10 * pow10(k - 1) - 1, 10, pow10(k - 1) - 1, 9);
        lemma_digit_count(n / 10, k - 1);
    }
}

/// Every count takes at least one digit.
proof fn lemma_ndigits_pos(n: int)
    ensures
        1 <= ndigits_of(n),
    decreases n,
{
    if n >= 10 {
        lemma_ndigits_pos(n / 10);
    }
}

/// Any count below `10^k` takes at most `k` digits.
proof fn lemma_ndigits_le(n: int, k: int)
    requires
        1 <= k,
        0 <= n < pow10(k),
    ensures
        ndigits_of(n) <= k,
    decreases k,
{
    if n >= 10 {
        if k == 1 {
            assert(pow10(1) == 10);
        } else {
            lemma_div_is_ordered(n, 10 * pow10(k - 1) - 1, 10);
            lemma_fundamental_div_mod_converse(10 * pow10(k - 1) - 1, 10, pow10(k - 1) - 1, 9);
            lemma_ndigits_le(n / 10, k - 1);
        }
    }
}

/// Counts the decimal digits of `crow`: the gutter width the automatic
/// numbering policy uses, one digit when there are no rows.
pub fn digit_count(crow: usize) -> (d: usize)
    ensures
        d as int == ndigits_of(crow as int),
        1 <= d <= 20,
{
    proof {
        assert((usize::MAX as int) < pow10(20)) by {
            reveal_with_fuel(pow10, 21);
        }
        lemma_ndigits_le(crow as int, 20);
        lemma_ndigits_pos(crow as int);
    }
    let mut d: usize = 1;
    let mut m: usize = crow;
    while m >= 10
        invariant
            0 <= m,
            1 <= d,
            (d - 1) + ndigits_of(m as int) == ndigits_of(crow as int),
            ndigits_of(m as int) >= 1,
            ndigits_of(crow as int) <= 20,
            d + ndigits_of(m as int) <= 21,
        decreases m,
    {
        m = m / 10;
        d = d + 1;
        proof {
            lemma_ndigits_pos(m as int);
        }
    }
    d
}

/// The digit width of the numbering gutter: the automatic policy counts
/// the digits of the row count, any other request is taken as a fixed
/// width.
pub fn resolve_ndigits(lnowidth: usize, crow: usize) -> (d: usize)
    ensures
        d as int == if lnowidth == DIME_AUTO {
            ndigits_of(crow as int)
        } else {
            lnowidth as int
        },
{
    if lnowidth == DIME_AUTO {
        digit_count(crow)
    } else {
        lnowidth
    }
}

} // verus!
