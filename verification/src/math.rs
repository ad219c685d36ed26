//! Integer sums, powers of two and congruence modulo the field's order.
use crate::field::{lemma_modulus_bounds, modulus};
use vstd::arithmetic::div_mod::{
    lemma_add_mod_noop, lemma_fundamental_div_mod, lemma_fundamental_div_mod_converse,
    lemma_mod_bound, lemma_mod_twice, lemma_mul_mod_noop, lemma_small_mod, lemma_sub_mod_noop,
};
use vstd::arithmetic::power2::{lemma_pow2_pos, lemma_pow2_unfold, pow2};
use vstd::prelude::*;

verus! {

/// The two integers stand for the same field element.
pub open spec fn cong(a: int, b: int) -> bool {
    a % modulus() == b % modulus()
}

pub proof fn lemma_reduced(a: int)
    ensures
        cong(a % modulus(), a),
        0 <= a % modulus() < modulus(),
{
    lemma_modulus_bounds();
    lemma_mod_twice(a, modulus());
    lemma_mod_bound(a, modulus());
}

pub proof fn lemma_cong_small(a: int, b: int)
    requires
        cong(a, b),
        0 <= a < modulus(),
        0 <= b < modulus(),
    ensures
        a == b,
{
    lemma_small_mod(a as nat, modulus() as nat);
    lemma_small_mod(b as nat, modulus() as nat);
}

pub proof fn lemma_cong_add(a: int, a2: int, b: int, b2: int)
    requires
        cong(a, a2),
        cong(b, b2),
    ensures
        cong(a + b, a2 + b2),
{
    lemma_modulus_bounds();
    lemma_add_mod_noop(a, b, modulus());
    lemma_add_mod_noop(a2, b2, modulus());
}

pub proof fn lemma_cong_sub(a: int, a2: int, b: int, b2: int)
    requires
        cong(a, a2),
        cong(b, b2),
    ensures
        cong(a - b, a2 - b2),
{
    lemma_modulus_bounds();
    lemma_sub_mod_noop(a, b, modulus());
    lemma_sub_mod_noop(a2, b2, modulus());
}

pub proof fn lemma_cong_mul(a: int, a2: int, b: int, b2: int)
    requires
        cong(a, a2),
        cong(b, b2),
    ensures
        cong(a * b, a2 * b2),
{
    lemma_modulus_bounds();
    lemma_mul_mod_noop(a, b, modulus());
    lemma_mul_mod_noop(a2, b2, modulus());
}

/// `f(0) + ... + f(n - 1)`.
pub open spec fn sum_to(f: spec_fn(int) -> int, n: int) -> int
    decreases n,
{
    if n <= 0 {
        0
    } else {
        sum_to(f, n - 1) + f(n - 1)
    }
}

/// `f(0) * ... * f(n - 1)`.
pub open spec fn product_to(f: spec_fn(int) -> int, n: int) -> int
    decreases n,
{
    if n <= 0 {
        1
    } else {
        product_to(f, n - 1) * f(n - 1)
    }
}

pub proof fn lemma_sum_ext(f: spec_fn(int) -> int, g: spec_fn(int) -> int, n: int)
    requires
        forall|i: int| 0 <= i < n ==> #[trigger] f(i) == g(i),
    ensures
        sum_to(f, n) == sum_to(g, n),
    decreases n,
{
    if n > 0 {
        lemma_sum_ext(f, g, n - 1);
    }
}

pub proof fn lemma_sum_cong(f: spec_fn(int) -> int, g: spec_fn(int) -> int, n: int)
    requires
        forall|i: int| 0 <= i < n ==> cong(#[trigger] f(i), g(i)),
    ensures
        cong(sum_to(f, n), sum_to(g, n)),
    decreases n,
{
    if n > 0 {
        lemma_sum_cong(f, g, n - 1);
        assert(cong(f(n - 1), g(n - 1)));
        lemma_cong_add(sum_to(f, n - 1), sum_to(g, n - 1), f(n - 1), g(n - 1));
    }
}

pub proof fn lemma_product_cong(f: spec_fn(int) -> int, g: spec_fn(int) -> int, n: int)
    requires
        forall|i: int| 0 <= i < n ==> cong(#[trigger] f(i), g(i)),
    ensures
        cong(product_to(f, n), product_to(g, n)),
    decreases n,
{
    if n > 0 {
        lemma_product_cong(f, g, n - 1);
        assert(cong(f(n - 1), g(n - 1)));
        lemma_cong_mul(product_to(f, n - 1), product_to(g, n - 1), f(n - 1), g(n - 1));
    }
}

pub proof fn lemma_product_ext(f: spec_fn(int) -> int, g: spec_fn(int) -> int, n: int)
    requires
        forall|i: int| 0 <= i < n ==> #[trigger] f(i) == g(i),
    ensures
        product_to(f, n) == product_to(g, n),
    decreases n,
{
    if n > 0 {
        lemma_product_ext(f, g, n - 1);
    }
}

pub proof fn lemma_sum_zero(f: spec_fn(int) -> int, n: int)
    requires
        forall|i: int| 0 <= i < n ==> #[trigger] f(i) == 0,
    ensures
        sum_to(f, n) == 0,
    decreases n,
{
    if n > 0 {
        lemma_sum_zero(f, n - 1);
    }
}

pub proof fn lemma_sum_add(f: spec_fn(int) -> int, g: spec_fn(int) -> int, n: int)
    ensures
        sum_to(|i: int| f(i) + g(i), n) == sum_to(f, n) + sum_to(g, n),
    decreases n,
{
    if n > 0 {
        lemma_sum_add(f, g, n - 1);
    }
}

pub proof fn lemma_sum_scale(c: int, f: spec_fn(int) -> int, n: int)
    ensures
        sum_to(|i: int| c * f(i), n) == c * sum_to(f, n),
    decreases n,
{
    if n > 0 {
        lemma_sum_scale(c, f, n - 1);
        assert(c * (sum_to(f, n - 1) + f(n - 1)) == c * sum_to(f, n - 1) + c * f(n - 1))
            by (nonlinear_arith);
    } else {
        assert(c * 0 == 0) by (nonlinear_arith);
    }
}

pub proof fn lemma_sum_split(f: spec_fn(int) -> int, a: int, b: int)
    requires
        0 <= a,
        0 <= b,
    ensures
        sum_to(f, a + b) == sum_to(f, a) + sum_to(|i: int| f(a + i), b),
    decreases b,
{
    if b > 0 {
        lemma_sum_split(f, a, b - 1);
    }
}

pub proof fn lemma_sum_pairs(f: spec_fn(int) -> int, m: int)
    requires
        0 <= m,
    ensures
        sum_to(f, 2 * m) == sum_to(|b: int| f(2 * b) + f(2 * b + 1), m),
    decreases m,
{
    if m > 0 {
        lemma_sum_pairs(f, m - 1);
        assert(sum_to(f, 2 * m) == sum_to(f, 2 * m - 1) + f(2 * m - 1));
        assert(sum_to(f, 2 * m - 1) == sum_to(f, 2 * m - 2) + f(2 * m - 2));
    }
}

pub proof fn lemma_sum_single(f: spec_fn(int) -> int, k: int, n: int)
    requires
        0 <= k < n,
        forall|i: int| 0 <= i < n && i != k ==> #[trigger] f(i) == 0,
    ensures
        sum_to(f, n) == f(k),
    decreases n,
{
    if k == n - 1 {
        lemma_sum_zero(f, n - 1);
    } else {
        lemma_sum_single(f, k, n - 1);
    }
}

/// Terms that vanish add nothing.
pub proof fn lemma_sum_gap(f: spec_fn(int) -> int, a: int, b: int)
    requires
        0 <= a <= b,
        forall|i: int| a <= i < b ==> #[trigger] f(i) == 0,
    ensures
        sum_to(f, b) == sum_to(f, a),
    decreases b,
{
    if a < b {
        lemma_sum_gap(f, a, b - 1);
    }
}

/// Two nested sums may be taken in either order.
pub proof fn lemma_sum_swap(f: spec_fn(int, int) -> int, m: int, n: int)
    ensures
        sum_to(|i: int| sum_to(|j: int| f(i, j), n), m) == sum_to(
            |j: int| sum_to(|i: int| f(i, j), m),
            n,
        ),
    decreases m,
{
    let rows = |i: int| sum_to(|j: int| f(i, j), n);
    let cols = |j: int| sum_to(|i: int| f(i, j), m);
    if m <= 0 {
        assert forall|j: int| 0 <= j < n implies #[trigger] cols(j) == 0 by {}
        lemma_sum_zero(cols, n);
    } else {
        lemma_sum_swap(f, m - 1, n);
        let cols1 = |j: int| sum_to(|i: int| f(i, j), m - 1);
        let last = |j: int| f(m - 1, j);
        lemma_sum_add(cols1, last, n);
        let both = |j: int| cols1(j) + last(j);
        lemma_sum_ext(both, cols, n);
        assert(rows(m - 1) == sum_to(last, n)) by {
            lemma_sum_ext(|j: int| f(m - 1, j), last, n);
        }
    }
}

/// A sum over `a * m` terms, taken block by block.
pub proof fn lemma_sum_blocks(f: spec_fn(int) -> int, a: int, m: int)
    requires
        0 <= a,
        0 <= m,
    ensures
        sum_to(f, a * m) == sum_to(|h: int| sum_to(|l: int| f(h * m + l), m), a),
    decreases a,
{
    if a > 0 {
        lemma_sum_blocks(f, a - 1, m);
        assert(a * m == (a - 1) * m + m) by (nonlinear_arith);
        assert((a - 1) * m >= 0) by (nonlinear_arith)
            requires
                a > 0,
                m >= 0,
        ;
        lemma_sum_split(f, (a - 1) * m, m);
    } else {
        assert(0 * m == 0) by (nonlinear_arith);
    }
}

/// `2^n` as a machine word.
pub fn two_to(n: usize) -> (r: usize)
    requires
        n < usize::BITS,
    ensures
        r == pow2(n as nat),
        r > 0,
{
    proof {
        vstd::bits::lemma_usize_pow2_no_overflow(n as nat);
        vstd::bits::lemma_usize_shl_is_mul(1, n);
    }
    1usize << n
}

pub proof fn lemma_pow2_step(n: nat)
    ensures
        pow2(n + 1) == 2 * pow2(n),
        pow2(n) > 0,
{
    lemma_pow2_unfold(n + 1);
    lemma_pow2_pos(n);
}

pub proof fn lemma_pow2_mono(a: nat, b: nat)
    requires
        a <= b,
    ensures
        pow2(a) <= pow2(b),
{
    if a < b {
        vstd::arithmetic::power2::lemma_pow2_strictly_increases(a, b);
    }
}

pub proof fn lemma_pow2_small()
    ensures
        pow2(0) == 1,
        pow2(1) == 2,
        pow2(2) == 4,
        pow2(3) == 8,
        pow2(4) == 16,
{
    vstd::arithmetic::power2::lemma2_to64();
}

/// A quotient and a remainder in range are the quotient and the remainder.
pub proof fn lemma_div_mod_unique(x: int, d: int, q: int, r: int)
    requires
        x == q * d + r,
        0 <= r < d,
    ensures
        x / d == q,
        x % d == r,
{
    lemma_fundamental_div_mod_converse(x, d, q, r);
}

pub proof fn lemma_div_mod(x: int, d: int)
    requires
        d > 0,
    ensures
        x == (x / d) * d + x % d,
        0 <= x % d < d,
{
    lemma_fundamental_div_mod(x, d);
    lemma_mod_bound(x, d);
    assert(d * (x / d) == (x / d) * d) by (nonlinear_arith);
}

} // verus!
