//! Single-precision arithmetic on whole numbers, carried out exactly in integers:
//! what comes of a product or quotient once it is rounded to 24 significant bits.

use vstd::prelude::*;

verus! {

/// The number of values of a 24-bit significand.
pub const SIGNIFICANDS: u64 = 0x100_0000;

/// The whole number nearest to `n / d`, the even one of two.
pub open spec fn nearest(n: int, d: int) -> int {
    let q = n / d;
    let r = n % d;
    if 2 * r > d || (2 * r == d && q % 2 == 1) {
        q + 1
    } else {
        q
    }
}

/// The least of `unit`, `2 * unit`, `4 * unit`, ... in which `n` takes no more
/// than 24 bits.
pub open spec fn last_place(n: int, unit: int) -> int
    decreases n - unit,
    when unit >= 1
{
    if n < unit * SIGNIFICANDS {
        unit
    } else {
        last_place(n, 2 * unit)
    }
}

/// The single-precision number nearest to a whole number.
pub open spec fn single(n: int) -> int {
    let unit = last_place(n, 1);
    nearest(n, unit) * unit
}

/// The least of `s`, `2 * s`, `4 * s`, ... by which `a / b` has to be multiplied
/// to have a whole part of at least 24 bits.
pub open spec fn quotient_scale(a: int, b: int, s: int) -> int
    decreases b * SIGNIFICANDS - s,
    when a >= 1 && b >= 1 && s >= 1
{
    if 2 * (a * s) >= b * SIGNIFICANDS {
        s
    } else {
        proof {
            assert(s <= a * s) by (nonlinear_arith)
                requires
                    a >= 1,
                    s >= 1,
            ;
        }
        quotient_scale(a, b, 2 * s)
    }
}

/// The single-precision number nearest to `a / b`, as a fraction.
pub open spec fn single_quotient(a: int, b: int) -> (int, int) {
    let s = quotient_scale(a, b, 1);
    (nearest(a * s, b), s)
}

fn nearest_to(n: u64, d: u64) -> (r: u64)
    requires
        d >= 1,
        n < 0x8000_0000_0000_0000,
        d < 0x8000_0000_0000_0000,
    ensures
        r == nearest(n as int, d as int),
        n / d <= r <= n / d + 1,
        d == 1 ==> r == n,
{
    let q: u64 = n / d;
    let r: u64 = n % d;
    assert(q <= n) by (nonlinear_arith)
        requires
            q == n / d,
            d >= 1,
    ;
    if 2 * r > d || (2 * r == d && q % 2 == 1) {
        q + 1
    } else {
        q
    }
}

/// The single-precision number nearest to a whole number.
pub fn to_single(n: u64) -> (r: u64)
    requires
        n < 0x400_0000_0000_0000,
    ensures
        r == single(n as int),
        r <= 2 * n,
        n >= 1 ==> r >= 1,
{
    let mut unit: u64 = 1;
    while n / SIGNIFICANDS >= unit
        invariant
            1 <= unit,
            unit <= n || unit == 1,
            n < 0x400_0000_0000_0000,
            last_place(n as int, unit as int) == last_place(n as int, 1),
        decreases n - unit,
    {
        unit = 2 * unit;
    }
    let m: u64 = nearest_to(n, unit);
    assert(m * unit <= n + unit) by (nonlinear_arith)
        requires
            m <= n / unit + 1,
            unit >= 1,
    ;
    assert(n >= 1 ==> m * unit >= 1) by (nonlinear_arith)
        requires
            m >= n / unit,
            1 <= unit,
            unit <= n || unit == 1,
    ;
    assert(unit == 1 ==> m * unit == n) by (nonlinear_arith)
        requires
            unit == 1 ==> m == n,
    ;
    m * unit
}

/// The single-precision number nearest to `a / b`, as a fraction.
pub fn divide(a: u64, b: u64) -> (r: (u64, u64))
    requires
        1 <= a < 0x100_0000,
        1 <= b <= 0x2_0000_0000,
    ensures
        (r.0 as int, r.1 as int) == single_quotient(a as int, b as int),
        1 <= r.1 < 0x200_0000_0000_0000,
        r.0 <= 0x100_0000,
{
    let limit: u64 = b * SIGNIFICANDS;
    let mut s: u64 = 1;
    let mut n: u64 = a;
    while 2 * n < limit
        invariant
            1 <= a < 0x100_0000,
            1 <= b <= 0x2_0000_0000,
            limit == b * SIGNIFICANDS,
            1 <= s <= n < limit,
            n == a * s,
            quotient_scale(a as int, b as int, s as int) == quotient_scale(a as int, b as int, 1),
        decreases limit - n,
    {
        assert(a * (2 * s) == 2 * (a * s)) by (nonlinear_arith);
        s = 2 * s;
        n = 2 * n;
    }
    let q: u64 = nearest_to(n, b);
    assert(n / b < SIGNIFICANDS) by (nonlinear_arith)
        requires
            n < b * SIGNIFICANDS,
            b >= 1,
    ;
    (q, s)
}

/// The fraction `n / d` rounded to a whole number, halves upwards.
pub open spec fn rounded(n: int, d: int) -> int {
    (2 * n + d) / (2 * d)
}

/// A whole number of no more than 24 bits is a single-precision number.
pub proof fn small_numbers_are_exact(n: int)
    requires
        0 <= n < SIGNIFICANDS,
    ensures
        single(n) == n,
{
    assert(last_place(n, 1) == 1);
    assert(n / 1 == n && n % 1 == 0);
}

/// Rounding is off by half the divisor at most.
pub proof fn nearest_error(n: int, d: int)
    requires
        n >= 0,
        d >= 1,
    ensures
        -d <= 2 * (nearest(n, d) * d - n) <= d,
        nearest(n, d) >= 0,
{
    vstd::arithmetic::div_mod::lemma_fundamental_div_mod(n, d);
    vstd::arithmetic::div_mod::lemma_mod_bound(n, d);
    let q = n / d;
    let r = n % d;
    assert(q >= 0) by (nonlinear_arith)
        requires
            q == n / d,
            n >= 0,
            d >= 1,
    ;
    assert(d * q == q * d) by (nonlinear_arith);
    assert((q + 1) * d == q * d + d) by (nonlinear_arith);
}

proof fn last_place_fits(n: int, unit: int)
    requires
        unit >= 1,
        unit == 1 || 2 * n >= unit * SIGNIFICANDS,
    ensures
        ({
            let u = last_place(n, unit);
            u >= 1 && (u == 1 || 2 * n >= u * SIGNIFICANDS)
        }),
    decreases n - unit,
{
    if n >= unit * SIGNIFICANDS {
        last_place_fits(n, 2 * unit);
    }
}

/// Single precision is off by one part in 2^24 at most.
pub proof fn single_error(n: int)
    requires
        n >= 0,
    ensures
        -n <= (single(n) - n) * SIGNIFICANDS <= n,
        single(n) >= 0,
{
    last_place_fits(n, 1);
    let u = last_place(n, 1);
    nearest_error(n, u);
    let m = nearest(n, u);
    if u == 1 {
        assert(n / 1 == n && n % 1 == 0);
        assert(m * u == n);
    }
    assert(m * u >= 0) by (nonlinear_arith)
        requires
            m >= 0,
            u >= 1,
    ;
}

proof fn quotient_scale_fits(a: int, b: int, s: int)
    requires
        1 <= a,
        1 <= b,
        1 <= s,
        a * s < b * SIGNIFICANDS,
    ensures
        ({
            let t = quotient_scale(a, b, s);
            t >= 1 && b * SIGNIFICANDS <= 2 * (a * t) && a * t < b * SIGNIFICANDS
        }),
    decreases b * SIGNIFICANDS - s,
{
    if 2 * (a * s) < b * SIGNIFICANDS {
        assert(s <= a * s) by (nonlinear_arith)
            requires
                a >= 1,
                s >= 1,
        ;
        assert(a * (2 * s) == 2 * (a * s)) by (nonlinear_arith);
        quotient_scale_fits(a, b, 2 * s);
    }
}

/// A single-precision quotient `q / s` is off by one part in 2^24 at most, and
/// its numerator takes no more than 24 bits.
pub proof fn quotient_error(a: int, b: int)
    requires
        1 <= a < SIGNIFICANDS,
        1 <= b,
    ensures
        ({
            let (q, s) = single_quotient(a, b);
            &&& s >= 1
            &&& 0 <= q <= SIGNIFICANDS
            &&& -b <= 2 * (q * b - a * s) <= b
            &&& b * SIGNIFICANDS <= 2 * (a * s)
        }),
{
    assert(a * 1 < b * SIGNIFICANDS) by (nonlinear_arith)
        requires
            1 <= a < SIGNIFICANDS,
            1 <= b,
    ;
    quotient_scale_fits(a, b, 1);
    let s = quotient_scale(a, b, 1);
    assert(a * s >= 0) by (nonlinear_arith)
        requires
            a >= 1,
            s >= 1,
    ;
    nearest_error(a * s, b);
    let q = nearest(a * s, b);
    assert(q <= SIGNIFICANDS) by (nonlinear_arith)
        requires
            2 * (q * b - a * s) <= b,
            a * s < b * SIGNIFICANDS,
            b >= 1,
    ;
}

/// A number halfway between two goes to the even one.
pub proof fn halves_go_to_even(n: int, d: int)
    requires
        n >= 0,
        d >= 1,
        2 * (n % d) == d,
    ensures
        nearest(n, d) % 2 == 0,
{
}

/// A number of 24 bits is kept, and so is its double.
pub proof fn doubles_are_kept(m: int, n: int)
    requires
        0 <= m < SIGNIFICANDS,
        n == 2 * m,
    ensures
        single(m) == m,
        single(n) == n,
{
    small_numbers_are_exact(m);
    if n < SIGNIFICANDS {
        small_numbers_are_exact(n);
    } else {
        assert(last_place(n, 2) == 2);
        assert(last_place(n, 1) == 2);
        assert(n / 2 == m && n % 2 == 0);
    }
}

} // verus!
