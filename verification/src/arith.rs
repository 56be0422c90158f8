//! Saturating `usize` arithmetic for canvas coordinates, and rounding.

use vstd::prelude::*;

verus! {

/// `a + b`, or `usize::MAX` when that does not fit.
pub open spec fn sat_add(a: int, b: int) -> int {
    if a + b > usize::MAX { usize::MAX as int } else { a + b }
}

/// `a * b`, or `usize::MAX` when that does not fit.
pub open spec fn sat_mul(a: int, b: int) -> int {
    if a * b > usize::MAX { usize::MAX as int } else { a * b }
}

pub fn sadd(a: usize, b: usize) -> (r: usize)
    ensures
        r == sat_add(a as int, b as int),
{
    a.saturating_add(b)
}

pub fn smul(a: usize, b: usize) -> (r: usize)
    ensures
        r == sat_mul(a as int, b as int),
{
    match a.checked_mul(b) {
        Some(x) => x,
        None => usize::MAX,
    }
}

/// The larger of `a` and `b`.
pub open spec fn max_int(a: int, b: int) -> int {
    if a >= b { a } else { b }
}

/// `(2a + t) / 2t` rounds `a / t` half up.
pub proof fn lemma_round_half_up(a: nat, t: nat)
    requires
        t > 0,
    ensures
        (2 * a + t) / (2 * t) == a / t + (if 2 * (a % t) >= t { 1int } else { 0int }),
{
    let q = (a / t) as int;
    let r = (a % t) as int;
    vstd::arithmetic::div_mod::lemma_fundamental_div_mod(a as int, t as int);
    assert(0 <= r < t);
    let x: int = (2 * a + t) as int;
    let tt: int = (2 * t) as int;
    assert(a == t * q + r);
    if 2 * r >= t {
        assert(x == (q + 1) * tt + (2 * r - t)) by (nonlinear_arith)
            requires a == t * q + r, x == 2 * a + t, tt == 2 * t;
        vstd::arithmetic::div_mod::lemma_fundamental_div_mod_converse(x, tt, q + 1, 2 * r - t);
    } else {
        assert(x == q * tt + (2 * r + t)) by (nonlinear_arith)
            requires a == t * q + r, x == 2 * a + t, tt == 2 * t;
        vstd::arithmetic::div_mod::lemma_fundamental_div_mod_converse(x, tt, q, 2 * r + t);
    }
}

} // verus!
