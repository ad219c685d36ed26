//! Univariate polynomials in evaluation form.
use crate::field::{lemma_fr_range, lemma_modulus_bounds, modulus, vals, CryptoField, Fr};
use crate::math::{
    cong, lemma_cong_add, lemma_cong_mul, lemma_cong_small, lemma_product_ext, lemma_reduced,
    lemma_sum_ext, lemma_sum_single, product_to, sum_to,
};
use crate::poly::degree::{
    curry, degree_below, eval, takes, invertible, lemma_agree, lemma_degree_const, lemma_degree_ext,
    lemma_degree_mul_linear, lemma_degree_scale, lemma_degree_sum,
};
use vstd::arithmetic::div_mod::lemma_small_mod;
use vstd::prelude::*;

verus! {

/// `y` is the inverse of `a` modulo the field's order.
pub open spec fn is_inverse(a: int, y: int) -> bool {
    0 <= y < modulus() && cong(a * y, 1)
}

/// The inverse of `a` modulo the field's order, where it has one.
pub open spec fn inverse(a: int) -> int {
    choose|y: int| is_inverse(a, y)
}

/// The factor of node `j` in the product over the nodes other than `i`.
pub open spec fn other_factor(x: int, i: int, j: int) -> int {
    if j == i {
        1
    } else {
        x - j
    }
}

/// The product of `x - j` over the nodes `j` in `0..n` other than `i`.
pub open spec fn node_product(x: int, i: int, n: int) -> int {
    product_to(|j: int| other_factor(x, i, j), n)
}

/// The polynomial of degree below `n` that is one at node `i` and zero at the other nodes.
pub open spec fn lagrange_basis(n: int, i: int, x: int) -> int {
    node_product(x, i, n) * inverse(node_product(i, i, n))
}

/// The value at `x` of the polynomial of degree below `points.len()` whose value at each node `i`
/// is `points[i]`.
pub open spec fn interpolated(points: Seq<int>, x: int) -> int {
    sum_to(|i: int| points[i] * lagrange_basis(points.len() as int, i, x), points.len() as int)
}

/// `q` is a polynomial of degree below `points.len()` whose value at each node `i` is `points[i]`,
/// modulo the field's order.
pub open spec fn passes_through(q: spec_fn(int) -> int, points: Seq<int>) -> bool {
    &&& degree_below(q, points.len() as int)
    &&& forall|i: int| 0 <= i < points.len() ==> cong(#[trigger] q(i), points[i])
}

/// `1 * 2 * ... * n`.
pub open spec fn factorial(n: int) -> int
    decreases n,
{
    if n <= 0 {
        1
    } else {
        factorial(n - 1) * n
    }
}

pub open spec fn sign(n: int) -> int {
    if n % 2 == 0 {
        1
    } else {
        -1
    }
}

/// An integer has at most one inverse.
pub proof fn lemma_inverse_unique(a: int, y: int)
    requires
        0 <= y < modulus(),
        cong(a * y, 1),
    ensures
        inverse(a) == y,
{
    assert(is_inverse(a, y));
    let z = inverse(a);
    assert(is_inverse(a, z));
    lemma_cong_mul(a * y, 1, z, z);
    lemma_cong_mul(a * z, 1, y, y);
    assert((a * y) * z == (a * z) * y) by (nonlinear_arith);
    assert(1 * z == z && 1 * y == y) by (nonlinear_arith);
    lemma_cong_small(y, z);
}

proof fn lemma_product_split(f: spec_fn(int) -> int, a: int, b: int)
    requires
        0 <= a,
        0 <= b,
    ensures
        product_to(f, a + b) == product_to(f, a) * product_to(|i: int| f(a + i), b),
    decreases b,
{
    let g = |i: int| f(a + i);
    if b > 0 {
        lemma_product_split(f, a, b - 1);
        let x = product_to(f, a);
        let y = product_to(g, b - 1);
        let z = f(a + b - 1);
        assert((x * y) * z == x * (y * z)) by (nonlinear_arith);
    } else {
        let x = product_to(f, a);
        assert(x * 1 == x) by (nonlinear_arith);
    }
}

/// The product of `x - j` over `0..i`.
pub open spec fn below(x: int, i: int) -> int {
    product_to(|j: int| x - j, i)
}

/// The product of `x - j` over the `k` integers from `i` on.
pub open spec fn from_on(x: int, i: int, k: int) -> int {
    product_to(|t: int| x - (i + t), k)
}

proof fn lemma_node_product(x: int, i: int, n: int)
    requires
        0 <= i < n,
    ensures
        node_product(x, i, n) == below(x, i) * from_on(x, i + 1, n - 1 - i),
{
    let f = |j: int| other_factor(x, i, j);
    lemma_product_split(f, i, n - i);
    let g = |t: int| f(i + t);
    lemma_product_split(g, 1, n - i - 1);
    let h = |t: int| g(1 + t);
    lemma_product_ext(f, |j: int| x - j, i);
    lemma_product_ext(h, |t: int| x - (i + 1 + t), n - 1 - i);
    assert(product_to(g, 1) == 1) by {
        assert(product_to(g, 1) == product_to(g, 0) * g(0));
    }
    let y = product_to(h, n - i - 1);
    assert(1 * y == y) by (nonlinear_arith);
    assert(product_to(g, n - i) == y) by {
        assert(1 + (n - i - 1) == n - i);
    }
    assert(product_to(f, n) == product_to(f, i) * y) by {
        assert(i + (n - i) == n);
    }
    assert(node_product(x, i, n) == product_to(f, n));
    assert(below(x, i) == product_to(f, i));
    assert(from_on(x, i + 1, n - 1 - i) == y);
}

proof fn lemma_below_factorial(i: int, m: int)
    requires
        0 <= m <= i,
    ensures
        below(i, m) * factorial(i - m) == factorial(i),
    decreases m,
{
    if m > 0 {
        lemma_below_factorial(i, m - 1);
        let a = below(i, m - 1);
        let c = factorial(i - m);
        let d = i - (m - 1);
        assert(factorial(i - (m - 1)) == c * d);
        assert(below(i, m) == a * d);
        assert((a * d) * c == a * (c * d)) by (nonlinear_arith);
    } else {
        let c = factorial(i);
        assert(1 * c == c) by (nonlinear_arith);
    }
}

proof fn lemma_from_on_factorial(i: int, k: int)
    requires
        0 <= k,
    ensures
        from_on(i, i + 1, k) == sign(k) * factorial(k),
    decreases k,
{
    if k > 0 {
        lemma_from_on_factorial(i, k - 1);
        let c = factorial(k - 1);
        assert(i - (i + 1 + (k - 1)) == -k);
        assert(from_on(i, i + 1, k) == from_on(i, i + 1, k - 1) * (-k));
        assert((1 * c) * (-k) == (-1) * (c * k)) by (nonlinear_arith);
        assert(((-1) * c) * (-k) == 1 * (c * k)) by (nonlinear_arith);
    }
}

/// At its own node, the product over the other nodes is a signed product of two factorials.
proof fn lemma_node_factorials(i: int, n: int)
    requires
        0 <= i < n,
    ensures
        node_product(i, i, n) == sign(n - 1 - i) * (factorial(i) * factorial(n - 1 - i)),
{
    lemma_node_product(i, i, n);
    lemma_below_factorial(i, i);
    lemma_from_on_factorial(i, n - 1 - i);
    let a = factorial(i);
    let b = factorial(n - 1 - i);
    let s = sign(n - 1 - i);
    assert(below(i, i) * 1 == below(i, i)) by (nonlinear_arith);
    assert(a * (s * b) == s * (a * b)) by (nonlinear_arith);
}

/// Another node annihilates the product.
proof fn lemma_node_product_zero(k: int, i: int, n: int)
    requires
        0 <= k < n,
        k != i,
    ensures
        node_product(k, i, n) == 0,
    decreases n,
{
    let f = |j: int| other_factor(k, i, j);
    let a = product_to(f, n - 1);
    if k == n - 1 {
        assert(f(n - 1) == 0);
        assert(a * 0 == 0) by (nonlinear_arith);
    } else {
        lemma_node_product_zero(k, i, n - 1);
        let b = f(n - 1);
        assert(0 * b == 0) by (nonlinear_arith);
    }
}

/// The inverses of non-zero elements, with a single field inversion.
pub fn batch_invert(xs: &Vec<Fr>) -> (r: Vec<Fr>)
    requires
        forall|i: int| 0 <= i < xs@.len() ==> (#[trigger] xs@[i])@ != 0,
    ensures
        r@.len() == xs@.len(),
        forall|i: int| 0 <= i < xs@.len() ==> cong(xs@[i]@ * (#[trigger] r@[i])@, 1),
{
    let n = xs.len();
    let ghost f = |j: int| vals(xs@)[j];
    let mut prefix: Vec<Fr> = Vec::with_capacity(n);
    let mut all = Fr::one();
    let mut i: usize = 0;
    while i < n
        invariant
            i <= n,
            n == xs@.len(),
            forall|i: int| 0 <= i < xs@.len() ==> (#[trigger] xs@[i])@ != 0,
            f == (|j: int| vals(xs@)[j]),
            prefix@.len() == i,
            forall|j: int| 0 <= j < i ==> cong((#[trigger] prefix@[j])@, product_to(f, j)),
            cong(all@, product_to(f, i as int)),
            all@ != 0,
        decreases n - i,
    {
        prefix.push(all);
        let next = all.mul(xs[i]);
        proof {
            lemma_reduced(all@ * xs@[i as int]@);
            lemma_cong_mul(all@, product_to(f, i as int), xs@[i as int]@, f(i as int));
        }
        all = next;
        i += 1;
    }
    let mut tail = all.invert();
    let mut out = Fr::repeat(Fr::zero(), n);
    proof {
        lemma_modulus_bounds();
        lemma_small_mod(1, modulus() as nat);
        lemma_cong_mul(all@, product_to(f, n as int), tail@, tail@);
    }
    let mut i: usize = n;
    while i > 0
        invariant
            i <= n,
            n == xs@.len(),
            n == prefix@.len(),
            n == out@.len(),
            f == (|j: int| vals(xs@)[j]),
            forall|j: int| 0 <= j < n ==> cong((#[trigger] prefix@[j])@, product_to(f, j)),
            cong(product_to(f, i as int) * tail@, 1),
            forall|j: int| i <= j < n ==> cong(xs@[j]@ * (#[trigger] out@[j])@, 1),
        decreases i,
    {
        i -= 1;
        let p = prefix[i];
        let x = xs[i];
        let inv = p.mul(tail);
        let next = tail.mul(x);
        proof {
            let q = product_to(f, i as int);
            let t = tail@;
            lemma_reduced(p@ * t);
            lemma_cong_mul(p@, q, t, t);
            lemma_cong_mul(x@, x@, inv@, q * t);
            assert(x@ * (q * t) == (q * x@) * t) by (nonlinear_arith);
            assert(product_to(f, i + 1) == q * x@);
            lemma_reduced(t * x@);
            lemma_cong_mul(q, q, next@, t * x@);
            assert(q * (t * x@) == (q * x@) * t) by (nonlinear_arith);
        }
        out.set(i, inv);
        tail = next;
    }
    out
}

/// Evaluates at `challenge` the polynomial of degree below `points.len()` that takes the values
/// `points` at `0, 1, 2, ...`, by Lagrange interpolation.
pub fn evaluate_univariate_polynomial(points: &Vec<Fr>, challenge: Fr) -> (r: Fr)
    requires
        points@.len() <= u32::MAX,
    ensures
        r@ == interpolated(vals(points@), challenge@) % modulus(),
        challenge@ < points@.len() ==> r@ == points@[challenge@]@,
        forall|q: spec_fn(int) -> int| #[trigger]
            passes_through(q, vals(points@)) ==> r@ == q(challenge@) % modulus(),
{
    let n = points.len();
    if n == 0 {
        proof {
            lemma_fr_range(challenge);
            lemma_modulus_bounds();
            lemma_small_mod(0, modulus() as nat);
            assert forall|q: spec_fn(int) -> int| #[trigger]
                passes_through(q, vals(points@)) implies 0int == q(challenge@) % modulus() by {
                let c = choose|c: Seq<int>| c.len() <= 0 && #[trigger] takes(q, c);
                assert(q(challenge@) == eval(c, challenge@));
            }
        }
        return Fr::zero();
    }
    let ghost x = challenge@;
    // suffix[i] is the product of (challenge - j) over the j above i.
    let mut suffix = Fr::repeat(Fr::one(), n);
    let mut i: usize = n - 1;
    while i > 0
        invariant
            i < n,
            n <= u32::MAX,
            x == challenge@,
            suffix@.len() == n,
            forall|j: int|
                i <= j < n ==> cong((#[trigger] suffix@[j])@, from_on(x, j + 1, n - 1 - j)),
        decreases i,
    {
        let d = challenge.sub(Fr::from_u64(i as u64));
        let s = suffix[i];
        let v = s.mul(d);
        proof {
            lemma_reduced(x - i);
            lemma_reduced(s@ * d@);
            let k = n - 1 - i;
            lemma_cong_mul(s@, from_on(x, i + 1, k), d@, x - i);
            let f = |t: int| x - (i + t);
            lemma_product_split(f, 1, k);
            assert(product_to(f, 1) == product_to(f, 0) * f(0));
            let g = |t: int| f(1 + t);
            lemma_product_ext(g, |t: int| x - (i + 1 + t), k);
            let a = from_on(x, i + 1, k);
            assert(1 * (x - i) == x - i) by (nonlinear_arith);
            assert((x - i) * a == a * (x - i)) by (nonlinear_arith);
            assert(from_on(x, i as int, k + 1) == product_to(f, 1 + k));
        }
        i -= 1;
        suffix.set(i, v);
    }
    let mut factorials: Vec<Fr> = Vec::with_capacity(n);
    let mut fact = Fr::one();
    let mut i: usize = 0;
    while i < n
        invariant
            i <= n,
            n <= u32::MAX,
            factorials@.len() == i,
            forall|j: int|
                0 <= j < i ==> cong((#[trigger] factorials@[j])@, factorial(j))
                    && factorials@[j]@ != 0,
            cong(fact@, factorial(i as int)),
            fact@ != 0,
        decreases n - i,
    {
        factorials.push(fact);
        let k = Fr::from_u64((i + 1) as u64);
        let next = fact.mul(k);
        proof {
            lemma_reduced(fact@ * k@);
            lemma_cong_mul(fact@, factorial(i as int), k@, i + 1);
        }
        fact = next;
        i += 1;
    }
    let mut denoms: Vec<Fr> = Vec::with_capacity(n);
    let mut i: usize = 0;
    while i < n
        invariant
            i <= n,
            factorials@.len() == n,
            forall|j: int|
                0 <= j < n ==> cong((#[trigger] factorials@[j])@, factorial(j))
                    && factorials@[j]@ != 0,
            denoms@.len() == i,
            forall|j: int|
                0 <= j < i ==> cong(
                    (#[trigger] denoms@[j])@,
                    factorial(j) * factorial(n - 1 - j),
                ) && denoms@[j]@ != 0,
        decreases n - i,
    {
        let a = factorials[i];
        let b = factorials[n - 1 - i];
        proof {
            lemma_reduced(a@ * b@);
            lemma_cong_mul(a@, factorial(i as int), b@, factorial(n - 1 - i));
        }
        denoms.push(a.mul(b));
        i += 1;
    }
    let inverses = batch_invert(&denoms);
    let mut prefix = Fr::one();
    let mut sum = Fr::zero();
    let ghost f = |i: int| vals(points@)[i] * lagrange_basis(n as int, i, x);
    let mut i: usize = 0;
    while i < n
        invariant
            i <= n,
            n <= u32::MAX,
            n == points@.len(),
            n == suffix@.len(),
            n == denoms@.len(),
            n == inverses@.len(),
            x == challenge@,
            forall|j: int|
                0 <= j < n ==> cong((#[trigger] suffix@[j])@, from_on(x, j + 1, n - 1 - j)),
            forall|j: int|
                0 <= j < n ==> cong(
                    (#[trigger] denoms@[j])@,
                    factorial(j) * factorial(n - 1 - j),
                ),
            forall|j: int| 0 <= j < n ==> cong(denoms@[j]@ * (#[trigger] inverses@[j])@, 1),
            cong(prefix@, below(x, i as int)),
            f == (|i: int| vals(points@)[i] * lagrange_basis(n as int, i, x)),
            cong(sum@, sum_to(f, i as int)),
            forall|j: int|
                0 <= j < i ==> cong(
                    #[trigger] node_product(j, j, n as int) * inverse(node_product(j, j, n as int)),
                    1,
                ),
            forall|j: int| 1 <= j < i ==> #[trigger] invertible(j),
        decreases n - i,
    {
        let one = Fr::one();
        let sign_i = if (n - 1 - i) % 2 == 0 {
            one
        } else {
            Fr::zero().sub(one)
        };
        let inv = inverses[i];
        let weight = sign_i.mul(inv);
        let s = suffix[i];
        let others = prefix.mul(s);
        let basis = others.mul(weight);
        let p = points[i];
        let term = p.mul(basis);
        let next_sum = sum.add(term);
        let d = challenge.sub(Fr::from_u64(i as u64));
        let next_prefix = prefix.mul(d);
        proof {
            let ii = i as int;
            let nn = n as int;
            let np = node_product(ii, ii, nn);
            let den = factorial(ii) * factorial(nn - 1 - ii);
            let sg = sign(nn - 1 - ii);
            lemma_node_factorials(ii, nn);
            lemma_reduced(0 - one@);
            assert(cong(sign_i@, sg));
            lemma_reduced(sign_i@ * inv@);
            lemma_cong_mul(sign_i@, sg, inv@, inv@);
            // np * weight = 1
            lemma_cong_mul(np, np, weight@, sg * inv@);
            assert((sg * den) * (sg * inv@) == den * inv@) by (nonlinear_arith)
                requires
                    sg == 1 || sg == -1,
            ;
            lemma_cong_mul(denoms@[ii]@, den, inv@, inv@);
            lemma_fr_range(weight);
            lemma_inverse_unique(np, weight@);
            if ii >= 1 {
                let a = factorial(ii - 1);
                let b = factorial(nn - 1 - ii);
                let y = inv@;
                assert(((a * ii) * b) * y == ii * (a * b * y)) by (nonlinear_arith);
                assert(cong(ii * (a * b * y), 1));
                assert(invertible(ii));
            }
            // others = node_product(x, i, n)
            lemma_reduced(prefix@ * s@);
            lemma_cong_mul(prefix@, below(x, ii), s@, from_on(x, ii + 1, nn - 1 - ii));
            lemma_node_product(x, ii, nn);
            lemma_reduced(others@ * weight@);
            lemma_cong_mul(others@, node_product(x, ii, nn), weight@, inverse(np));
            lemma_reduced(p@ * basis@);
            lemma_cong_mul(p@, p@, basis@, lagrange_basis(nn, ii, x));
            lemma_reduced(sum@ + term@);
            lemma_cong_add(sum@, sum_to(f, ii), term@, f(ii));
            lemma_reduced(x - ii);
            lemma_reduced(prefix@ * d@);
            lemma_cong_mul(prefix@, below(x, ii), d@, x - ii);
        }
        sum = next_sum;
        prefix = next_prefix;
        i += 1;
    }
    proof {
        lemma_fr_range(sum);
        lemma_fr_range(challenge);
        if x < n {
            lemma_interpolated_at_node(vals(points@), x);
            lemma_fr_range(points@[x]);
        }
        assert forall|q: spec_fn(int) -> int| #[trigger]
            passes_through(q, vals(points@)) implies sum@ == q(x) % modulus() by {
            let p = |y: int| interpolated(vals(points@), y);
            lemma_interpolated_degree(vals(points@));
            assert forall|k: int| 0 <= k < n implies cong(#[trigger] p(k), q(k)) by {
                lemma_interpolated_at_node(vals(points@), k);
                assert(cong(q(k), vals(points@)[k]));
            }
            lemma_agree(p, q, n as int, x);
        }
    }
    sum
}

proof fn lemma_node_product_degree(i: int, n: int)
    requires
        0 <= i,
        0 <= n,
    ensures
        degree_below(
            |x: int| node_product(x, i, n),
            if n > i {
                n
            } else {
                n + 1
            },
        ),
    decreases n,
{
    let f = |x: int| node_product(x, i, n);
    if n == 0 {
        lemma_degree_const(1);
        lemma_degree_ext(|x: int| 1int, f, 1);
    } else {
        lemma_node_product_degree(i, n - 1);
        let g = |x: int| node_product(x, i, n - 1);
        let d = if n - 1 > i {
            n - 1
        } else {
            n
        };
        if n - 1 == i {
            assert forall|x: int| #[trigger] f(x) == g(x) by {
                assert(node_product(x, i, n) == node_product(x, i, n - 1) * 1);
            }
            lemma_degree_ext(g, f, d);
        } else {
            lemma_degree_mul_linear(g, -(n - 1), 1, d);
            let h = |x: int| g(x) * (-(n - 1) + 1 * x);
            assert forall|x: int| #[trigger] f(x) == h(x) by {
                assert(node_product(x, i, n) == node_product(x, i, n - 1) * (x - (n - 1)));
            }
            lemma_degree_ext(h, f, d + 1);
        }
    }
}

/// The interpolated polynomial has degree below the number of points.
pub proof fn lemma_interpolated_degree(points: Seq<int>)
    ensures
        degree_below(|x: int| interpolated(points, x), points.len() as int),
{
    let n = points.len() as int;
    let f = |i: int, x: int| points[i] * lagrange_basis(n, i, x);
    assert forall|i: int| 0 <= i < n implies degree_below(#[trigger] curry(f, i), n) by {
        lemma_node_product_degree(i, n);
        let g = |x: int| node_product(x, i, n);
        let k = points[i] * inverse(node_product(i, i, n));
        lemma_degree_scale(k, g, n);
        let h = |x: int| k * g(x);
        let c = curry(f, i);
        assert forall|x: int| #[trigger] c(x) == h(x) by {
            let p = points[i];
            let v = node_product(x, i, n);
            let w = inverse(node_product(i, i, n));
            assert(p * (v * w) == (p * w) * v) by (nonlinear_arith);
        }
        lemma_degree_ext(h, c, n);
    }
    lemma_degree_sum(f, n, n);
    let total = |x: int| sum_to(|i: int| f(i, x), n);
    let goal = |x: int| interpolated(points, x);
    assert forall|x: int| #[trigger] goal(x) == total(x) by {
        lemma_sum_ext(
            |i: int| points[i] * lagrange_basis(n, i, x),
            |i: int| f(i, x),
            n,
        );
    }
    lemma_degree_ext(total, goal, n);
}

/// The interpolated polynomial takes the given value at each node, where the product over the
/// node's differences has an inverse.
pub proof fn lemma_interpolated_at_node(points: Seq<int>, k: int)
    requires
        0 <= k < points.len(),
        cong(
            node_product(k, k, points.len() as int) * inverse(
                node_product(k, k, points.len() as int),
            ),
            1,
        ),
    ensures
        cong(interpolated(points, k), points[k]),
{
    let n = points.len() as int;
    let f = |i: int| points[i] * lagrange_basis(n, i, k);
    assert forall|i: int| 0 <= i < n && i != k implies #[trigger] f(i) == 0 by {
        lemma_node_product_zero(k, i, n);
        let a = points[i];
        let b = inverse(node_product(i, i, n));
        assert(a * (0 * b) == 0) by (nonlinear_arith);
    }
    lemma_sum_single(f, k, n);
    lemma_cong_mul(points[k], points[k], lagrange_basis(n, k, k), 1);
    assert(points[k] * 1 == points[k]) by (nonlinear_arith);
}

} // verus!
