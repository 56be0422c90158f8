//! Exact rational arithmetic for fractional layout rows.
//!
//! A `Rat` is a fraction `num / den` in lowest terms with `den >= 1`, and
//! both parts at most `BOUND` in magnitude. Each operation computes the exact
//! result, reduces it, and fails (`None`) when the reduced fraction leaves
//! that bound.

use vstd::prelude::*;

verus! {

/// The largest magnitude of a numerator or denominator (2^62).
pub const BOUND: i128 = 4611686018427387904;

/// A fraction `num / den`.
#[derive(Debug, Clone, Copy, PartialEq, Eq, Structural)]
pub struct Rat {
    pub num: i128,
    pub den: i128,
}

/// Both parts lie within the bound, and the denominator is positive.
pub open spec fn wf(r: Rat) -> bool {
    -BOUND <= r.num <= BOUND && 1 <= r.den <= BOUND
}

pub open spec fn gcd(a: nat, b: nat) -> nat
    decreases b,
{
    if b == 0 {
        a
    } else {
        gcd(b, a % b)
    }
}

pub open spec fn abs(n: int) -> nat {
    if n >= 0 { n as nat } else { (-n) as nat }
}

/// `n / d` reduced to lowest terms, when the result lies within the bound.
pub open spec fn canon(n: int, d: int) -> Option<Rat> {
    let g = gcd(abs(n), abs(d));
    let n2: int = if n >= 0 { (abs(n) / g) as int } else { -((abs(n) / g) as int) };
    let d2 = abs(d) / g;
    if -BOUND <= n2 <= BOUND && 1 <= d2 <= BOUND {
        Some(Rat { num: n2 as i128, den: d2 as i128 })
    } else {
        None
    }
}

/// The integer `k` as a fraction.
pub open spec fn r_int(k: int) -> Rat {
    Rat { num: k as i128, den: 1 }
}

pub open spec fn r_add(a: Rat, b: Rat) -> Option<Rat> {
    canon(a.num * b.den + b.num * a.den, a.den * b.den)
}

pub open spec fn r_sub(a: Rat, b: Rat) -> Option<Rat> {
    canon(a.num * b.den - b.num * a.den, a.den * b.den)
}

/// `a / k` for a count `k >= 1`.
pub open spec fn r_div(a: Rat, k: int) -> Option<Rat> {
    canon(a.num as int, a.den * k)
}

/// `a < b`.
pub open spec fn r_lt(a: Rat, b: Rat) -> bool {
    a.num * b.den < b.num * a.den
}

/// `r` stands for the quotient `n / d`.
pub open spec fn denotes(r: Rat, n: int, d: int) -> bool {
    r.num * d == n * r.den
}

/// `a >= b` in value (denominators positive).
pub open spec fn r_ge(a: Rat, b: Rat) -> bool {
    a.num * b.den >= b.num * a.den
}

/// `a >= b + 1` in value.
pub open spec fn r_ge1(a: Rat, b: Rat) -> bool {
    a.num * b.den >= (b.num + b.den) * a.den
}

/// The greatest common divisor divides both arguments.
pub proof fn lemma_gcd_divides(a: nat, b: nat)
    requires
        a > 0 || b > 0,
    ensures
        gcd(a, b) > 0,
        a % gcd(a, b) == 0,
        b % gcd(a, b) == 0,
    decreases b,
{
    lemma_gcd_pos(a, b);
    if b > 0 {
        lemma_gcd_divides(b, a % b);
        let g = gcd(a, b) as int;
        let r = (a % b) as int;
        let q = (a / b) as int;
        vstd::arithmetic::div_mod::lemma_fundamental_div_mod(a as int, b as int);
        vstd::arithmetic::div_mod::lemma_fundamental_div_mod(b as int, g);
        vstd::arithmetic::div_mod::lemma_fundamental_div_mod(r, g);
        let kb = (b as int) / g;
        let kr = r / g;
        assert(a == g * (kb * q + kr)) by (nonlinear_arith)
            requires
                b == g * kb + 0,
                r == g * kr + 0,
                a == b * q + r;
        vstd::arithmetic::div_mod::lemma_mod_multiples_vanish(kb * q + kr, 0, g);
        vstd::arithmetic::div_mod::lemma_small_mod(0, g as nat);
    } else {
        vstd::arithmetic::div_mod::lemma_mod_self_0(a as int);
        vstd::arithmetic::div_mod::lemma_small_mod(0, a);
    }
}

/// A reduced fraction lies within the bound.
pub proof fn lemma_canon_wf(n: int, d: int)
    ensures
        canon(n, d) matches Some(r) ==> wf(r),
{
}

/// A reduced fraction keeps the value of what it reduces.
pub proof fn lemma_canon_denotes(n: int, d: int)
    requires
        d >= 1,
    ensures
        canon(n, d) matches Some(r) ==> denotes(r, n, d),
{
    let an = abs(n);
    let ad = abs(d);
    lemma_gcd_divides(an, ad);
    let g = gcd(an, ad) as int;
    vstd::arithmetic::div_mod::lemma_fundamental_div_mod(an as int, g);
    vstd::arithmetic::div_mod::lemma_fundamental_div_mod(ad as int, g);
    let a = (an as int) / g;
    let b = (ad as int) / g;
    if n >= 0 {
        assert(a * d == n * b) by (nonlinear_arith)
            requires an == g * a + 0, ad == g * b + 0, an == n, ad == d;
    } else {
        assert((-a) * d == n * b) by (nonlinear_arith)
            requires an == g * a + 0, ad == g * b + 0, an == -n, ad == d;
    }
}

/// The sum of two fractions denotes their sum.
pub proof fn lemma_add_denotes(a: Rat, b: Rat)
    requires
        wf(a),
        wf(b),
    ensures
        r_add(a, b) matches Some(c) ==> denotes(c, a.num * b.den + b.num * a.den, a.den * b.den) && wf(c),
{
    assert(a.den * b.den >= 1) by (nonlinear_arith)
        requires a.den >= 1, b.den >= 1;
    lemma_canon_denotes(a.num * b.den + b.num * a.den, a.den * b.den);
}

/// `y + 1`, and anything not below it, is at least `y + 1`.
pub proof fn lemma_next_row(y: Rat, t: Rat)
    requires
        wf(y),
        wf(t),
    ensures
        r_add(y, r_int(1)) matches Some(p) ==> r_ge1(p, y) && (!r_lt(t, p) ==> r_ge1(t, y)),
{
    lemma_add_denotes(y, r_int(1));
    match r_add(y, r_int(1)) {
        Some(p) => {
            assert(p.num * y.den == (y.num + y.den) * p.den) by (nonlinear_arith)
                requires p.num * (y.den * 1) == (y.num * 1 + 1 * y.den) * p.den;
            if !r_lt(t, p) {
                assert(t.num * y.den >= (y.num + y.den) * t.den) by (nonlinear_arith)
                    requires
                        p.num * y.den == (y.num + y.den) * p.den,
                        t.num * p.den >= p.num * t.den,
                        y.den >= 1,
                        p.den >= 1,
                        t.den >= 1;
            }
        },
        None => {},
    }
}

/// `a >= b + 1` and `b >= c` give `a >= c + 1`.
pub proof fn lemma_ge1_trans(a: Rat, b: Rat, c: Rat)
    requires
        wf(a),
        wf(b),
        wf(c),
        r_ge1(a, b),
        r_ge(b, c),
    ensures
        r_ge1(a, c),
{
    assert(a.num * c.den >= (c.num + c.den) * a.den) by (nonlinear_arith)
        requires
            a.num * b.den >= (b.num + b.den) * a.den,
            b.num * c.den >= c.num * b.den,
            a.den >= 1,
            b.den >= 1,
            c.den >= 1;
}

/// `a >= b + 1` gives `a >= b`.
pub proof fn lemma_ge1_ge(a: Rat, b: Rat)
    requires
        wf(a),
        wf(b),
        r_ge1(a, b),
    ensures
        r_ge(a, b),
{
    assert(a.num * b.den >= b.num * a.den) by (nonlinear_arith)
        requires a.num * b.den >= (b.num + b.den) * a.den, a.den >= 1, b.den >= 1;
}

/// `>=` is transitive.
pub proof fn lemma_ge_trans(a: Rat, b: Rat, c: Rat)
    requires
        wf(a),
        wf(b),
        wf(c),
        r_ge(a, b),
        r_ge(b, c),
    ensures
        r_ge(a, c),
{
    assert(a.num * c.den >= c.num * a.den) by (nonlinear_arith)
        requires
            a.num * b.den >= b.num * a.den,
            b.num * c.den >= c.num * b.den,
            a.den >= 1,
            b.den >= 1,
            c.den >= 1;
}

/// Adding the same amount keeps a gap of at least one.
pub proof fn lemma_shift_ge1(a: Rat, b: Rat, s: Rat)
    requires
        wf(a),
        wf(b),
        wf(s),
        r_ge1(a, b),
    ensures
        r_add(a, s) is Some && r_add(b, s) is Some ==> r_ge1(r_add(a, s)->0, r_add(b, s)->0),
{
    lemma_add_denotes(a, s);
    lemma_add_denotes(b, s);
    match (r_add(a, s), r_add(b, s)) {
        (Some(x), Some(y)) => {
            let p = a.num * s.den + s.num * a.den;
            let q = a.den * s.den;
            let u = b.num * s.den + s.num * b.den;
            let v = b.den * s.den;
            // x = p / q and y = u / v; p / q - u / v = a - b.
            let ss = s.den * s.den;
            let m = a.num * b.den - b.num * a.den;
            assert(p * v == (a.num * s.den) * v + (s.num * a.den) * v) by (nonlinear_arith)
                requires p == a.num * s.den + s.num * a.den;
            assert((a.num * s.den) * v == (a.num * b.den) * ss) by (nonlinear_arith)
                requires v == b.den * s.den, ss == s.den * s.den;
            assert((s.num * a.den) * v == (s.num * a.den * b.den) * s.den) by (nonlinear_arith)
                requires v == b.den * s.den;
            assert(u * q == (b.num * s.den) * q + (s.num * b.den) * q) by (nonlinear_arith)
                requires u == b.num * s.den + s.num * b.den;
            assert((b.num * s.den) * q == (b.num * a.den) * ss) by (nonlinear_arith)
                requires q == a.den * s.den, ss == s.den * s.den;
            assert((s.num * b.den) * q == (s.num * a.den * b.den) * s.den) by (nonlinear_arith)
                requires q == a.den * s.den;
            assert(m * ss == (a.num * b.den) * ss - (b.num * a.den) * ss) by (nonlinear_arith)
                requires m == a.num * b.den - b.num * a.den;
            assert(p * v - u * q == m * ss);
            assert(q * v == (a.den * b.den) * ss) by (nonlinear_arith)
                requires q == a.den * s.den, v == b.den * s.den, ss == s.den * s.den;
            assert(ss >= 1) by (nonlinear_arith)
                requires s.den >= 1, ss == s.den * s.den;
            assert(m >= a.den * b.den) by (nonlinear_arith)
                requires m == a.num * b.den - b.num * a.den, a.num * b.den >= (b.num + b.den) * a.den;
            assert(m * ss >= (a.den * b.den) * ss) by (nonlinear_arith)
                requires m >= a.den * b.den, ss >= 1;
            assert(q >= 1 && v >= 1) by (nonlinear_arith)
                requires q == a.den * s.den, v == b.den * s.den, a.den >= 1, b.den >= 1, s.den >= 1;
            assert(p * v - u * q >= q * v);
            assert(x.num * y.den >= (y.num + y.den) * x.den) by (nonlinear_arith)
                requires
                    x.num * q == p * x.den,
                    y.num * v == u * y.den,
                    p * v - u * q >= q * v,
                    q >= 1,
                    v >= 1,
                    x.den >= 1,
                    y.den >= 1;
        },
        _ => {},
    }
}

proof fn lemma_gcd_pos(a: nat, b: nat)
    requires
        a > 0 || b > 0,
    ensures
        gcd(a, b) > 0,
    decreases b,
{
    if b > 0 {
        lemma_gcd_pos(b, a % b);
    }
}

fn gcd_of(a: u128, b: u128) -> (g: u128)
    ensures
        g == gcd(a as nat, b as nat),
{
    let mut x = a;
    let mut y = b;
    while y != 0
        invariant
            gcd(x as nat, y as nat) == gcd(a as nat, b as nat),
        decreases y,
    {
        let r = x % y;
        x = y;
        y = r;
    }
    x
}

/// `n / d` reduced, for `|n|` and `d` up to 2^126.
pub fn canon_of(n: i128, d: i128) -> (r: Option<Rat>)
    requires
        -0x4000_0000_0000_0000_0000_0000_0000_0000 <= n <= 0x4000_0000_0000_0000_0000_0000_0000_0000,
        1 <= d <= 0x4000_0000_0000_0000_0000_0000_0000_0000,
    ensures
        r == canon(n as int, d as int),
        r matches Some(x) ==> wf(x),
{
    let m: u128 = if n >= 0 { n as u128 } else { (-n) as u128 };
    let dm: u128 = d as u128;
    assert(m == abs(n as int) && dm == abs(d as int));
    let g = gcd_of(m, dm);
    proof {
        lemma_gcd_pos(m as nat, dm as nat);
    }
    let q = m / g;
    let d2 = dm / g;
    let n2: i128 = if n >= 0 { q as i128 } else { -(q as i128) };
    if -BOUND <= n2 && n2 <= BOUND && 1 <= d2 && d2 <= BOUND as u128 {
        Some(Rat { num: n2, den: d2 as i128 })
    } else {
        None
    }
}

pub fn add_of(a: Rat, b: Rat) -> (r: Option<Rat>)
    requires
        wf(a),
        wf(b),
    ensures
        r == r_add(a, b),
        r matches Some(x) ==> wf(x),
{
    proof {
        lemma_products(a, b);
    }
    canon_of(a.num * b.den + b.num * a.den, a.den * b.den)
}

pub fn sub_of(a: Rat, b: Rat) -> (r: Option<Rat>)
    requires
        wf(a),
        wf(b),
    ensures
        r == r_sub(a, b),
        r matches Some(x) ==> wf(x),
{
    proof {
        lemma_products(a, b);
    }
    canon_of(a.num * b.den - b.num * a.den, a.den * b.den)
}

pub fn div_of(a: Rat, k: usize) -> (r: Option<Rat>)
    requires
        wf(a),
        k >= 1,
    ensures
        r == r_div(a, k as int),
        r matches Some(x) ==> wf(x),
{
    assert(a.den * k <= 0x4000_0000_0000_0000_0000_0000_0000_0000) by (nonlinear_arith)
        requires 1 <= a.den <= BOUND, k <= usize::MAX, k >= 1;
    assert(a.den * k >= 1) by (nonlinear_arith)
        requires 1 <= a.den, k >= 1;
    canon_of(a.num, a.den * (k as i128))
}

pub fn lt_of(a: Rat, b: Rat) -> (r: bool)
    requires
        wf(a),
        wf(b),
    ensures
        r == r_lt(a, b),
{
    proof {
        lemma_products(a, b);
    }
    a.num * b.den < b.num * a.den
}

pub fn int_of(k: i128) -> (r: Rat)
    requires
        -BOUND <= k <= BOUND,
    ensures
        r == r_int(k as int),
        wf(r),
{
    Rat { num: k, den: 1 }
}

proof fn lemma_products(a: Rat, b: Rat)
    requires
        wf(a),
        wf(b),
    ensures
        -0x1000_0000_0000_0000_0000_0000_0000_0000 <= a.num * b.den <= 0x1000_0000_0000_0000_0000_0000_0000_0000,
        -0x1000_0000_0000_0000_0000_0000_0000_0000 <= b.num * a.den <= 0x1000_0000_0000_0000_0000_0000_0000_0000,
        1 <= a.den * b.den <= 0x1000_0000_0000_0000_0000_0000_0000_0000,
{
    assert(-0x1000_0000_0000_0000_0000_0000_0000_0000 <= a.num * b.den <= 0x1000_0000_0000_0000_0000_0000_0000_0000) by (nonlinear_arith)
        requires -BOUND <= a.num <= BOUND, 1 <= b.den <= BOUND;
    assert(-0x1000_0000_0000_0000_0000_0000_0000_0000 <= b.num * a.den <= 0x1000_0000_0000_0000_0000_0000_0000_0000) by (nonlinear_arith)
        requires -BOUND <= b.num <= BOUND, 1 <= a.den <= BOUND;
    assert(1 <= a.den * b.den <= 0x1000_0000_0000_0000_0000_0000_0000_0000) by (nonlinear_arith)
        requires 1 <= a.den <= BOUND, 1 <= b.den <= BOUND;
}

} // verus!
