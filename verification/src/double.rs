//! Quotients of integers in double precision, by integer arithmetic.
//!
//! A double holds 53 significant bits. An integer, or a quotient, that takes more of them is rounded
//! to the nearest number that does not, and to the one with an even last bit where two are equally
//! near.
use crate::arith::nearest;
use crate::math::{lemma_div_mod, lemma_div_mod_unique, lemma_pow2_step};
use vstd::arithmetic::power2::pow2;
use vstd::prelude::*;

verus! {

/// `a / b` rounded to the nearest integer, to the even one where two are equally near.
pub open spec fn even_quotient(a: int, b: int) -> int {
    let (q, r) = (a / b, a % b);
    if 2 * r < b || (2 * r == b && q % 2 == 0) {
        q
    } else {
        q + 1
    }
}

/// How often `a / b` has to be halved to be below `2^53`.
pub open spec fn excess(a: int, b: int) -> nat
    decreases a - b,
{
    if b <= 0 || a < b * 0x20_0000_0000_0000 {
        0
    } else {
        1 + excess(a, 2 * b)
    }
}

/// How often a positive `a / b` has to be doubled to be `2^52` or more.
pub open spec fn deficit(a: int, b: int) -> nat
    decreases b * 0x20_0000_0000_0000 - a,
{
    if a <= 0 || a >= b * 0x10_0000_0000_0000 {
        0
    } else {
        1 + deficit(2 * a, b)
    }
}

/// The double nearest to an integer that is not negative.
pub open spec fn as_double(n: int) -> int {
    even_quotient(n, pow2(excess(n, 1)) as int) * pow2(excess(n, 1))
}

/// The double nearest to `a / b`, rounded to the nearest integer, up where two are equally near.
pub open spec fn double_quotient(a: int, b: int) -> int {
    let (e, s) = (excess(a, b), deficit(a, b));
    if e > 0 {
        even_quotient(a, b * pow2(e)) * pow2(e)
    } else {
        nearest(even_quotient(a * pow2(s), b), pow2(s) as int)
    }
}

/// The quotient of the doubles nearest to `x` and `c`, as a double, rounded to the nearest integer,
/// away from zero where two are equally near.
pub open spec fn double_divided(x: int, c: int) -> int {
    if x >= 0 {
        double_quotient(as_double(x), as_double(c))
    } else {
        -double_quotient(as_double(-x), as_double(c))
    }
}

/// `a / b` rounded to the nearest integer, to the even one where two are equally near.
fn round_even(a: u128, b: u128) -> (r: u128)
    requires
        0 < b < 0x4000_0000_0000_0000_0000_0000_0000_0000,
        a < 0x4000_0000_0000_0000_0000_0000_0000_0000,
    ensures
        r == even_quotient(a as int, b as int),
        r * b <= a + b,
{
    proof {
        lemma_div_mod(a as int, b as int);
        let q = a as int / b as int;
        assert((q + 1) * b == q * b + b) by (nonlinear_arith);
        assert(q <= a) by (nonlinear_arith)
            requires
                q * b <= a,
                b >= 1,
                a >= 0,
        ;
    }
    let q = a / b;
    let r = a % b;
    if 2 * r < b || (2 * r == b && q % 2 == 0) {
        q
    } else {
        q + 1
    }
}

/// The divisor doubled as often as `a / b` has to be halved to be below `2^53`, and the power of two
/// by which it is multiplied.
fn widen(a: u128, b: u128) -> (r: (u128, u128))
    requires
        0 < b < 0x2_0000_0000_0000_0000,
        a < 0x4000_0000_0000_0000_0000_0000_0000_0000,
    ensures
        r.1 == pow2(excess(a as int, b as int)),
        r.0 == b * r.1,
        0 < r.0 < 0x4000_0000_0000_0000_0000_0000_0000_0000,
        r.1 >= 1,
        r.1 > 1 ==> r.0 <= a,
        r.1 > 1 <==> excess(a as int, b as int) > 0,
{
    let mut d = b;
    let mut p: u128 = 1;
    let ghost mut e: nat = 0;
    proof {
        crate::math::lemma_pow2_small();
        let t = b as int;
        assert(t * 1 == t) by (nonlinear_arith);
    }
    while a / 0x20_0000_0000_0000 >= d
        invariant
            0 < d < 0x800_0000_0000_0000_0000,
            0 < b,
            a < 0x4000_0000_0000_0000_0000_0000_0000_0000,
            p == pow2(e),
            p >= 1,
            d == b * p,
            p <= d,
            e > 0 ==> d <= a,
            e > 0 <==> p > 1,
            excess(a as int, b as int) == e + excess(a as int, d as int),
        decreases a + 1 - d,
    {
        proof {
            lemma_pow2_step(e);
            let (x, y) = (b as int, p as int);
            assert(x * (2 * y) == 2 * (x * y)) by (nonlinear_arith);
            assert(a as int >= d * 0x20_0000_0000_0000);
        }
        d = 2 * d;
        p = 2 * p;
        proof {
            e = e + 1;
        }
    }
    proof {
        assert((a as int) < d * 0x20_0000_0000_0000);
    }
    (d, p)
}

/// The double nearest to an integer.
pub fn to_double(n: u128) -> (r: u128)
    requires
        n < 0x4000_0000_0000_0000_0000_0000_0000_0000,
    ensures
        r == as_double(n as int),
        r <= 2 * n,
        n > 0 ==> r > 0,
{
    let (_d, p) = widen(n, 1);
    let q = round_even(n, p);
    proof {
        assert(1 * p == p) by (nonlinear_arith);
        lemma_div_mod(n as int, p as int);
        let (t, pp) = (n as int / p as int, p as int);
        if p == 1 {
            lemma_div_mod_unique(n as int, 1, n as int, 0);
        } else {
            assert(t >= 1) by (nonlinear_arith)
                requires
                    t * pp + n as int % pp == n,
                    n as int % pp < pp,
                    n >= pp,
                    pp > 0,
            ;
        }
        let qq = q as int;
        assert(qq * pp >= 1 || n == 0) by (nonlinear_arith)
            requires
                pp >= 1,
                qq >= 1 || n == 0,
        ;
    }
    q * p
}

/// The double nearest to `a / b`, rounded to the nearest integer.
fn divide_doubles(a: u128, b: u128) -> (r: u128)
    requires
        0 < b < 0x2_0000_0000_0000_0000,
        a < 0x2000_0000_0000_0000_0000_0000_0000_0000,
    ensures
        r == double_quotient(a as int, b as int),
        r < 0x4000_0000_0000_0000_0000_0000_0000_0000,
{
    let (d, p) = widen(a, b);
    if p > 1 {
        let q = round_even(a, d);
        proof {
            let (x, y, z) = (q as int, p as int, b as int);
            assert(x * y <= x * (z * y) && z * y >= y) by (nonlinear_arith)
                requires
                    x >= 0,
                    y >= 1,
                    z >= 1,
            ;
            assert(q * d <= a + d);
        }
        return q * p;
    }
    let ghost s0 = deficit(a as int, b as int);
    let mut m = a;
    let mut p: u128 = 1;
    let ghost mut s: nat = 0;
    proof {
        crate::math::lemma_pow2_small();
        let t = a as int;
        assert(t * 1 == t) by (nonlinear_arith);
        assert((a as int) < b * 0x20_0000_0000_0000);
    }
    while m > 0 && m / 0x10_0000_0000_0000 < b
        invariant
            0 < b < 0x2_0000_0000_0000_0000,
            m < b * 0x20_0000_0000_0000,
            p == pow2(s),
            p >= 1,
            m == a * p,
            a > 0 ==> p <= m,
            a == 0 ==> p == 1,
            s0 == s + deficit(m as int, b as int),
        decreases b * 0x20_0000_0000_0000 - m,
    {
        proof {
            lemma_pow2_step(s);
            let (x, y) = (a as int, p as int);
            assert(x * (2 * y) == 2 * (x * y)) by (nonlinear_arith);
            assert((m as int) < b * 0x10_0000_0000_0000);
        }
        m = 2 * m;
        p = 2 * p;
        proof {
            s = s + 1;
        }
    }
    proof {
        assert(deficit(m as int, b as int) == 0);
        assert(s == s0);
    }
    let q = round_even(m, b);
    proof {
        let (x, z) = (q as int, b as int);
        assert(x <= 0x20_0000_0000_0001) by (nonlinear_arith)
            requires
                x * z <= m + z,
                m < z * 0x20_0000_0000_0000,
                z > 0,
        ;
    }
    (2 * q + p) / (2 * p)
}

/// The quotient of the doubles nearest to `x` and `c`, as a double, rounded to the nearest integer.
pub fn double_div(x: i128, c: usize) -> (r: i128)
    requires
        -0x1000_0000_0000_0000_0000_0000_0000_0000 < x
            < 0x1000_0000_0000_0000_0000_0000_0000_0000,
        c > 0,
    ensures
        r == double_divided(x as int, c as int),
        -0x4000_0000_0000_0000_0000_0000_0000_0000 < r
            < 0x4000_0000_0000_0000_0000_0000_0000_0000,
{
    let b = to_double(c as u128);
    if x >= 0 {
        divide_doubles(to_double(x as u128), b) as i128
    } else {
        -(divide_doubles(to_double((-x) as u128), b) as i128)
    }
}

/// An integer below `2^53` is a double.
pub proof fn lemma_as_double(n: int)
    requires
        0 <= n < 0x20_0000_0000_0000,
    ensures
        as_double(n) == n,
{
    crate::math::lemma_pow2_small();
    assert(excess(n, 1) == 0);
    lemma_div_mod_unique(n, 1, n, 0);
    assert(n * 1 == n) by (nonlinear_arith);
}

/// The double nearest to a positive integer is positive.
proof fn lemma_as_double_large(n: int)
    requires
        n >= 0x20_0000_0000_0000,
    ensures
        as_double(n) >= 0x20_0000_0000_0000,
{
    let e = excess(n, 1);
    lemma_excess(n, 1);
    let p = pow2(e) as int;
    vstd::arithmetic::power2::lemma_pow2_pos(e);
    lemma_pow2_step((e - 1) as nat);
    lemma_div_mod(n, p);
    let (q, h) = (n / p, pow2((e - 1) as nat) as int);
    assert(q >= 0x10_0000_0000_0000) by (nonlinear_arith)
        requires
            q * p + n % p == n,
            n % p < p,
            n >= h * 0x20_0000_0000_0000,
            p == 2 * h,
            h > 0,
    ;
    let k = even_quotient(n, p);
    assert(k * p >= 0x20_0000_0000_0000) by (nonlinear_arith)
        requires
            k >= 0x10_0000_0000_0000,
            p >= 2,
    ;
}

/// The number of halvings is the least that will do.
proof fn lemma_excess(a: int, b: int)
    requires
        b > 0,
        a >= b * 0x20_0000_0000_0000,
    ensures
        excess(a, b) > 0,
        a >= b * pow2((excess(a, b) - 1) as nat) * 0x20_0000_0000_0000,
    decreases a - b,
{
    crate::math::lemma_pow2_small();
    if a >= 2 * b * 0x20_0000_0000_0000 {
        lemma_excess(a, 2 * b);
        let f = excess(a, 2 * b);
        lemma_pow2_step((f - 1) as nat);
        let h = pow2((f - 1) as nat) as int;
        assert((2 * b) * h == b * (2 * h)) by (nonlinear_arith);
    } else {
        assert(excess(a, 2 * b) == 0);
        assert(b * 1 == b) by (nonlinear_arith);
    }
}

/// After the doublings the quotient is from `2^52` on.
proof fn lemma_deficit(a: int, b: int)
    requires
        a > 0,
        b > 0,
    ensures
        a * pow2(deficit(a, b)) >= b * 0x10_0000_0000_0000,
    decreases b * 0x20_0000_0000_0000 - a,
{
    crate::math::lemma_pow2_small();
    if a >= b * 0x10_0000_0000_0000 {
        assert(a * 1 == a) by (nonlinear_arith);
    } else {
        lemma_deficit(2 * a, b);
        let s = deficit(2 * a, b);
        lemma_pow2_step(s);
        let p = pow2(s) as int;
        assert((2 * a) * p == a * (2 * p)) by (nonlinear_arith);
    }
}

/// Rounding to the even one is rounding to the nearest: by at most one half.
proof fn lemma_even_quotient(a: int, b: int)
    requires
        b > 0,
        a >= 0,
    ensures
        -b <= 2 * (even_quotient(a, b) * b - a) <= b,
        even_quotient(a, b) >= 0,
{
    lemma_div_mod(a, b);
    let q = a / b;
    assert((q + 1) * b == q * b + b) by (nonlinear_arith);
    assert(q >= 0) by (nonlinear_arith)
        requires
            q * b + a % b == a,
            a % b < b,
            a >= 0,
            b > 0,
    ;
}

/// Below `2^52` the quotient in double precision rounds to the integer that the quotient itself rounds
/// to.
pub proof fn lemma_double_divided(x: int, c: int)
    requires
        -0x10_0000_0000_0000 < x < 0x10_0000_0000_0000,
        c > 0,
    ensures
        double_divided(x, c) == nearest(x, c),
{
    let n = if x >= 0 {
        x
    } else {
        -x
    };
    lemma_as_double(n);
    if c < 0x20_0000_0000_0000 {
        lemma_as_double(c);
        lemma_small_quotient(n, c);
    } else {
        let b = as_double(c);
        lemma_as_double_large(c);
        lemma_small_quotient(n, b);
        lemma_div_mod_unique(2 * n + b, 2 * b, 0, 2 * n + b);
        lemma_div_mod_unique(2 * n + c, 2 * c, 0, 2 * n + c);
    }
}

proof fn lemma_small_quotient(n: int, c: int)
    requires
        0 <= n < 0x10_0000_0000_0000,
        c > 0,
    ensures
        double_quotient(n, c) == nearest(n, c),
{
    assert(excess(n, c) == 0);
    let s = deficit(n, c);
    let p = pow2(s) as int;
    vstd::arithmetic::power2::lemma_pow2_pos(s);
    let m = even_quotient(n * p, c);
    if n == 0 {
        crate::math::lemma_pow2_small();
        assert(0 * p == 0) by (nonlinear_arith);
        assert(0 * c == 0 && 0 * (2 * c) == 0) by (nonlinear_arith);
        lemma_div_mod_unique(0, c, 0, 0);
        lemma_div_mod_unique(1, 2, 0, 1);
        lemma_div_mod_unique(c, 2 * c, 0, c);
        return;
    }
    lemma_deficit(n, c);
    lemma_pow2_step((s - 1) as nat);
    let h = pow2((s - 1) as nat) as int;
    assert(n * p >= 0) by (nonlinear_arith)
        requires
            n > 0,
            p > 0,
    ;
    lemma_even_quotient(n * p, c);
    assert(p > c) by (nonlinear_arith)
        requires
            n * p >= c * 0x10_0000_0000_0000,
            0 < n < 0x10_0000_0000_0000,
            c > 0,
            p > 0,
    ;
    let k = nearest(n, c);
    lemma_div_mod(2 * n + c, 2 * c);
    let v = k * (2 * c);
    assert(v == 2 * (k * c)) by (nonlinear_arith)
        requires
            v == k * (2 * c),
    ;
    // (2 k - 1) c <= 2 n < (2 k + 1) c, and so (2 k - 1) p <= 2 m < (2 k + 1) p.
    let (w, u) = (2 * k - 1, (2 * k - 1) * h);
    assert(w * c == 2 * (k * c) - c) by (nonlinear_arith)
        requires
            w == 2 * k - 1,
    ;
    assert((w * c) * p <= (2 * n) * p) by (nonlinear_arith)
        requires
            w * c <= 2 * n,
            p > 0,
    ;
    assert((w * c) * p == 2 * (u * c)) by (nonlinear_arith)
        requires
            p == 2 * h,
            u == w * h,
    ;
    assert((2 * n) * p == 2 * (n * p)) by (nonlinear_arith);
    assert(u <= m) by (nonlinear_arith)
        requires
            2 * (u * c) <= 2 * (m * c) + c,
            c > 0,
    ;
    assert((2 * k - 1) * p == 2 * u) by (nonlinear_arith)
        requires
            p == 2 * h,
            u == (2 * k - 1) * h,
    ;
    assert(2 * m < (2 * k + 1) * p) by (nonlinear_arith)
        requires
            2 * n + 1 <= 2 * (k * c) + c,
            2 * (m * c) <= 2 * (n * p) + c,
            c > 0,
            p > c,
    ;
    let rest = 2 * m + p - k * (2 * p);
    assert(0 <= rest < 2 * p) by (nonlinear_arith)
        requires
            (2 * k - 1) * p <= 2 * m < (2 * k + 1) * p,
            rest == 2 * m + p - k * (2 * p),
    ;
    lemma_div_mod_unique(2 * m + p, 2 * p, k, rest);
}

} // verus!
