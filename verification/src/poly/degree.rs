//! Integer polynomials by their coefficients: closure of degree bounds, and uniqueness of
//! interpolation modulo the field's order.
use crate::math::{cong, lemma_cong_add, lemma_cong_mul, lemma_cong_sub, sum_to};
use vstd::prelude::*;

verus! {

/// The value at `x` of the polynomial with coefficients `c`, lowest degree first.
pub open spec fn eval(c: Seq<int>, x: int) -> int
    decreases c.len(),
{
    if c.len() == 0 {
        0
    } else {
        c[0] + x * eval(c.skip(1), x)
    }
}

/// `f` takes the values of the polynomial with coefficients `c`.
pub open spec fn takes(f: spec_fn(int) -> int, c: Seq<int>) -> bool {
    forall|x: int| #[trigger] f(x) == eval(c, x)
}

/// `f` is a polynomial function of degree below `n`.
pub open spec fn degree_below(f: spec_fn(int) -> int, n: int) -> bool {
    exists|c: Seq<int>| c.len() <= n && #[trigger] takes(f, c)
}

/// Some integer is an inverse of `k` modulo the field's order.
pub open spec fn invertible(k: int) -> bool {
    exists|y: int| #[trigger] cong(k * y, 1)
}

/// All of `1..n` are invertible modulo the field's order.
pub open spec fn invertible_below(n: int) -> bool {
    forall|k: int| 1 <= k < n ==> #[trigger] invertible(k)
}

pub open spec fn coeffs_add(a: Seq<int>, b: Seq<int>) -> Seq<int> {
    Seq::new(
        if a.len() < b.len() {
            b.len()
        } else {
            a.len()
        },
        |i: int|
            (if i < a.len() {
                a[i]
            } else {
                0
            }) + (if i < b.len() {
                b[i]
            } else {
                0
            }),
    )
}

pub open spec fn coeffs_scale(k: int, a: Seq<int>) -> Seq<int> {
    Seq::new(a.len(), |i: int| k * a[i])
}

proof fn lemma_eval_add(a: Seq<int>, b: Seq<int>, x: int)
    ensures
        eval(coeffs_add(a, b), x) == eval(a, x) + eval(b, x),
    decreases a.len() + b.len(),
{
    let c = coeffs_add(a, b);
    if a.len() == 0 {
        assert(c =~= b);
    } else if b.len() == 0 {
        assert(c =~= a);
    } else {
        lemma_eval_add(a.skip(1), b.skip(1), x);
        assert(c.skip(1) =~= coeffs_add(a.skip(1), b.skip(1)));
        let p = eval(a.skip(1), x);
        let q = eval(b.skip(1), x);
        assert(x * (p + q) == x * p + x * q) by (nonlinear_arith);
    }
}

proof fn lemma_eval_scale(k: int, a: Seq<int>, x: int)
    ensures
        eval(coeffs_scale(k, a), x) == k * eval(a, x),
    decreases a.len(),
{
    if a.len() == 0 {
        assert(k * 0 == 0) by (nonlinear_arith);
    } else {
        lemma_eval_scale(k, a.skip(1), x);
        assert(coeffs_scale(k, a).skip(1) =~= coeffs_scale(k, a.skip(1)));
        let p = eval(a.skip(1), x);
        let h = a[0];
        assert(k * h + x * (k * p) == k * (h + x * p)) by (nonlinear_arith);
    }
}

pub proof fn lemma_degree_const(k: int)
    ensures
        degree_below(|x: int| k, 1),
{
    let c = seq![k];
    assert forall|x: int| k == eval(c, x) by {
        assert(eval(c.skip(1), x) == 0);
        assert(x * 0 == 0) by (nonlinear_arith);
    }
    assert(takes(|x: int| k, c));
}

pub proof fn lemma_degree_more(f: spec_fn(int) -> int, m: int, n: int)
    requires
        degree_below(f, m),
        m <= n,
    ensures
        degree_below(f, n),
{
    let c = choose|c: Seq<int>| c.len() <= m && #[trigger] takes(f, c);
    assert(takes(f, c));
}

pub proof fn lemma_degree_ext(f: spec_fn(int) -> int, g: spec_fn(int) -> int, n: int)
    requires
        degree_below(f, n),
        forall|x: int| #[trigger] g(x) == f(x),
    ensures
        degree_below(g, n),
{
    let c = choose|c: Seq<int>| c.len() <= n && #[trigger] takes(f, c);
    assert(takes(g, c));
}

pub proof fn lemma_degree_add(f: spec_fn(int) -> int, g: spec_fn(int) -> int, n: int)
    requires
        degree_below(f, n),
        degree_below(g, n),
    ensures
        degree_below(|x: int| f(x) + g(x), n),
{
    let c = choose|c: Seq<int>| c.len() <= n && #[trigger] takes(f, c);
    let d = choose|c: Seq<int>| c.len() <= n && #[trigger] takes(g, c);
    let e = coeffs_add(c, d);
    let h = |x: int| f(x) + g(x);
    assert(takes(h, e)) by {
        assert forall|x: int| #[trigger] h(x) == eval(e, x) by {
            lemma_eval_add(c, d, x);
            assert(f(x) == eval(c, x));
            assert(g(x) == eval(d, x));
        }
    }
}

pub proof fn lemma_degree_scale(k: int, f: spec_fn(int) -> int, n: int)
    requires
        degree_below(f, n),
    ensures
        degree_below(|x: int| k * f(x), n),
{
    let c = choose|c: Seq<int>| c.len() <= n && #[trigger] takes(f, c);
    let e = coeffs_scale(k, c);
    let h = |x: int| k * f(x);
    assert(takes(h, e)) by {
        assert forall|x: int| #[trigger] h(x) == eval(e, x) by {
            lemma_eval_scale(k, c, x);
            assert(f(x) == eval(c, x));
        }
    }
}

/// A product with `a + b x` raises the degree bound by one.
pub proof fn lemma_degree_mul_linear(f: spec_fn(int) -> int, a: int, b: int, n: int)
    requires
        degree_below(f, n),
    ensures
        degree_below(|x: int| f(x) * (a + b * x), n + 1),
{
    let c = choose|c: Seq<int>| c.len() <= n && #[trigger] takes(f, c);
    let shifted = seq![0int] + coeffs_scale(b, c);
    let e = coeffs_add(coeffs_scale(a, c), shifted);
    let h = |x: int| f(x) * (a + b * x);
    assert(takes(h, e)) by {
        assert forall|x: int| #[trigger] h(x) == eval(e, x) by {
            lemma_eval_add(coeffs_scale(a, c), shifted, x);
            lemma_eval_scale(a, c, x);
            lemma_eval_scale(b, c, x);
            assert(shifted.skip(1) =~= coeffs_scale(b, c));
            assert(f(x) == eval(c, x));
            let v = f(x);
            assert(a * v + (0 + x * (b * v)) == v * (a + b * x)) by (nonlinear_arith);
        }
    }
}

pub proof fn lemma_degree_sum(f: spec_fn(int, int) -> int, m: int, n: int)
    requires
        0 <= n,
        forall|i: int| 0 <= i < m ==> degree_below(#[trigger] curry(f, i), n),
    ensures
        degree_below(|x: int| sum_to(|i: int| f(i, x), m), n),
    decreases m,
{
    let total = |x: int| sum_to(|i: int| f(i, x), m);
    if m <= 0 {
        assert(takes(total, Seq::<int>::empty()));
    } else {
        lemma_degree_sum(f, m - 1, n);
        let rest = |x: int| sum_to(|i: int| f(i, x), m - 1);
        let last = curry(f, m - 1);
        lemma_degree_add(rest, last, n);
        lemma_degree_ext(|x: int| rest(x) + last(x), total, n);
    }
}

/// The one-argument function that `f` becomes with its first argument fixed.
pub open spec fn curry(f: spec_fn(int, int) -> int, i: int) -> spec_fn(int) -> int {
    |x: int| f(i, x)
}

/// The coefficients of the quotient by `x - a`.
pub open spec fn quotient(c: Seq<int>, a: int) -> Seq<int>
    decreases c.len(),
{
    if c.len() <= 1 {
        seq![]
    } else {
        seq![eval(c.skip(1), a)] + quotient(c.skip(1), a)
    }
}

proof fn lemma_quotient(c: Seq<int>, a: int, x: int)
    ensures
        eval(c, x) == eval(c, a) + (x - a) * eval(quotient(c, a), x),
        c.len() > 0 ==> quotient(c, a).len() == c.len() - 1,
    decreases c.len(),
{
    if c.len() == 0 {
        assert((x - a) * 0 == 0) by (nonlinear_arith);
    } else if c.len() == 1 {
        assert(eval(c.skip(1), x) == 0 && eval(c.skip(1), a) == 0);
        assert(eval(quotient(c, a), x) == 0);
        assert((x - a) * 0 == 0) by (nonlinear_arith);
        assert(x * 0 == 0 && a * 0 == 0) by (nonlinear_arith);
    } else {
        let t = c.skip(1);
        lemma_quotient(t, a, x);
        let q = quotient(c, a);
        assert(q.skip(1) =~= quotient(t, a));
        assert(q[0] == eval(t, a));
        assert(eval(q, x) == eval(t, a) + x * eval(quotient(t, a), x));
        let ta = eval(t, a);
        let e = eval(quotient(t, a), x);
        let h = c[0];
        assert(h + x * (ta + (x - a) * e) == (h + a * ta) + (x - a) * (ta + x * e))
            by (nonlinear_arith);
    }
}

/// A polynomial of degree below `m` that vanishes at `m` consecutive integers vanishes.
proof fn lemma_vanishes(c: Seq<int>, a: int, m: int, x: int)
    requires
        c.len() <= m,
        invertible_below(m),
        forall|i: int| a <= i < a + m ==> cong(#[trigger] eval(c, i), 0),
    ensures
        cong(eval(c, x), 0),
    decreases m,
{
    if c.len() > 0 {
        let q = quotient(c, a);
        assert(cong(eval(c, a), 0));
        lemma_quotient(c, a, x);
        assert forall|i: int| a + 1 <= i < a + m implies cong(#[trigger] eval(q, i), 0) by {
            lemma_quotient(c, a, i);
            assert(cong(eval(c, i), 0));
            let d = i - a;
            let v = eval(q, i);
            lemma_cong_sub(eval(c, i), 0, eval(c, a), 0);
            assert(cong(d * v, 0));
            assert(invertible(d));
            let y = choose|y: int| #[trigger] cong(d * y, 1);
            lemma_cong_mul(d * y, 1, v, v);
            lemma_cong_mul(y, y, d * v, 0);
            assert((d * y) * v == y * (d * v)) by (nonlinear_arith);
            assert(1 * v == v && y * 0 == 0) by (nonlinear_arith);
        }
        lemma_vanishes(q, a + 1, m - 1, x);
        lemma_cong_mul(x - a, x - a, eval(q, x), 0);
        assert((x - a) * 0 == 0) by (nonlinear_arith);
        lemma_cong_add(eval(c, a), 0, (x - a) * eval(q, x), 0);
    }
}

/// Two polynomials of degree below `n` that agree modulo the field's order at `0..n` agree
/// everywhere.
pub proof fn lemma_agree(f: spec_fn(int) -> int, g: spec_fn(int) -> int, n: int, x: int)
    requires
        degree_below(f, n),
        degree_below(g, n),
        invertible_below(n),
        forall|i: int| 0 <= i < n ==> cong(#[trigger] f(i), g(i)),
    ensures
        cong(f(x), g(x)),
{
    lemma_degree_scale(-1, g, n);
    let minus = |y: int| -1 * g(y);
    lemma_degree_add(f, minus, n);
    let d = |y: int| f(y) + minus(y);
    let c = choose|c: Seq<int>| c.len() <= n && #[trigger] takes(d, c);
    assert forall|i: int| 0 <= i < 0 + n implies cong(#[trigger] eval(c, i), 0) by {
        assert(d(i) == eval(c, i));
        assert(cong(f(i), g(i)));
        lemma_cong_sub(f(i), g(i), g(i), g(i));
        let v = g(i);
        assert(-1 * v == -v) by (nonlinear_arith);
    }
    lemma_vanishes(c, 0, n, x);
    assert(d(x) == eval(c, x));
    let v = g(x);
    assert(-1 * v == -v) by (nonlinear_arith);
    lemma_cong_add(d(x), 0, g(x), g(x));
}

} // verus!
