//! Multilinear extensions of tables, over the integers.
//!
//! A table of `2^n` entries stands for the multilinear polynomial in `n` variables that takes the
//! table's values on the boolean points. Variable 0 is the lowest bit of an index.
use crate::math::{
    cong, lemma_cong_mul, lemma_div_mod_unique, lemma_pow2_small, lemma_pow2_step,
    lemma_product_ext, lemma_sum_add, lemma_sum_blocks, lemma_sum_cong, lemma_sum_ext,
    lemma_sum_pairs, lemma_sum_scale, lemma_sum_single, lemma_sum_split, lemma_sum_swap,
    product_to, sum_to,
};
use vstd::arithmetic::power2::pow2;
use vstd::prelude::*;

verus! {

/// The weight that the point `r` gives the table entry `i`: the product over the variables of
/// `r[j]` where bit `j` of `i` is set and `1 - r[j]` where it is not.
pub open spec fn eq_weight(r: Seq<int>, i: int) -> int
    decreases r.len(),
{
    if r.len() == 0 {
        1
    } else {
        (if i % 2 == 1 {
            r[0]
        } else {
            1 - r[0]
        }) * eq_weight(r.skip(1), i / 2)
    }
}

/// The multilinear extension of `table` at the point `r`.
pub open spec fn mle(table: Seq<int>, r: Seq<int>) -> int {
    sum_to(|i: int| table[i] * eq_weight(r, i), pow2(r.len()) as int)
}

/// The `n` low bits of `b`, lowest first.
pub open spec fn bits(b: int, n: nat) -> Seq<int>
    decreases n,
{
    if n == 0 {
        seq![]
    } else {
        seq![b % 2] + bits(b / 2, (n - 1) as nat)
    }
}

/// The table of the polynomial with its first variable fixed to `x`.
pub open spec fn fold_low(table: Seq<int>, x: int) -> Seq<int> {
    Seq::new(table.len() / 2, |b: int| table[2 * b] + x * (table[2 * b + 1] - table[2 * b]))
}

/// The table of the polynomial with its last variable fixed to `x`.
pub open spec fn fold_high(table: Seq<int>, x: int) -> Seq<int> {
    Seq::new(
        table.len() / 2,
        |b: int| table[b] + x * (table[b + table.len() / 2] - table[b]),
    )
}

/// Entry by entry, the two tables stand for the same field elements.
pub open spec fn table_cong(a: Seq<int>, b: Seq<int>) -> bool {
    &&& a.len() == b.len()
    &&& forall|i: int| 0 <= i < a.len() ==> cong(#[trigger] a[i], b[i])
}

pub proof fn lemma_bits_len(b: int, n: nat)
    ensures
        bits(b, n).len() == n,
    decreases n,
{
    if n > 0 {
        lemma_bits_len(b / 2, (n - 1) as nat);
    }
}

/// Fixing the first variable and then evaluating is evaluating with that variable in front.
pub proof fn lemma_mle_fold_low(table: Seq<int>, x: int, z: Seq<int>)
    requires
        table.len() == 2 * pow2(z.len()),
    ensures
        mle(table, seq![x] + z) == mle(fold_low(table, x), z),
{
    let r = seq![x] + z;
    let m = pow2(z.len()) as int;
    lemma_pow2_step(z.len());
    assert(r.skip(1) =~= z);
    let f = |i: int| table[i] * eq_weight(r, i);
    lemma_sum_pairs(f, m);
    let pairs = |b: int| f(2 * b) + f(2 * b + 1);
    let folded = fold_low(table, x);
    let g = |b: int| folded[b] * eq_weight(z, b);
    assert forall|b: int| 0 <= b < m implies #[trigger] pairs(b) == g(b) by {
        let w = eq_weight(z, b);
        assert((2 * b) % 2 == 0 && (2 * b) / 2 == b);
        assert((2 * b + 1) % 2 == 1 && (2 * b + 1) / 2 == b);
        assert(eq_weight(r, 2 * b) == (1 - x) * w);
        assert(eq_weight(r, 2 * b + 1) == x * w);
        let lo = table[2 * b];
        let hi = table[2 * b + 1];
        assert(lo * ((1 - x) * w) + hi * (x * w) == (lo + x * (hi - lo)) * w) by (nonlinear_arith);
    }
    lemma_sum_ext(pairs, g, m);
}

/// The weight of an entry splits off the factor of the last variable.
pub proof fn lemma_eq_push(z: Seq<int>, x: int, i: int)
    requires
        0 <= i < pow2(z.len()),
    ensures
        eq_weight(z.push(x), i) == eq_weight(z, i) * (1 - x),
        eq_weight(z.push(x), i + pow2(z.len())) == eq_weight(z, i) * x,
    decreases z.len(),
{
    let r = z.push(x);
    if z.len() == 0 {
        lemma_pow2_small();
        assert(i == 0);
        assert(eq_weight(r.skip(1), 0) == 1);
        assert(r[0] == x);
        assert((1 - x) * 1 == 1 * (1 - x) && x * 1 == 1 * x) by (nonlinear_arith);
    } else {
        let t = z.skip(1);
        let m = pow2(t.len()) as int;
        lemma_pow2_step(t.len());
        assert(r.skip(1) =~= t.push(x));
        assert(r[0] == z[0]);
        lemma_eq_push(t, x, i / 2);
        assert((i + 2 * m) % 2 == i % 2);
        assert((i + 2 * m) / 2 == i / 2 + m);
        let c = if i % 2 == 1 {
            z[0]
        } else {
            1 - z[0]
        };
        let w = eq_weight(t, i / 2);
        assert(c * (w * (1 - x)) == (c * w) * (1 - x)) by (nonlinear_arith);
        assert(c * (w * x) == (c * w) * x) by (nonlinear_arith);
    }
}

/// Fixing the last variable and then evaluating is evaluating with that variable at the end.
pub proof fn lemma_mle_fold_high(table: Seq<int>, x: int, z: Seq<int>)
    requires
        table.len() == 2 * pow2(z.len()),
    ensures
        mle(table, z.push(x)) == mle(fold_high(table, x), z),
{
    let r = z.push(x);
    let m = pow2(z.len()) as int;
    lemma_pow2_step(z.len());
    let f = |i: int| table[i] * eq_weight(r, i);
    lemma_sum_split(f, m, m);
    let up = |i: int| f(m + i);
    lemma_sum_add(f, up, m);
    let both = |i: int| f(i) + up(i);
    let folded = fold_high(table, x);
    let g = |b: int| folded[b] * eq_weight(z, b);
    assert forall|b: int| 0 <= b < m implies #[trigger] both(b) == g(b) by {
        lemma_eq_push(z, x, b);
        let w = eq_weight(z, b);
        let lo = table[b];
        let hi = table[b + m];
        assert(m + b == b + m);
        assert(table.len() / 2 == m);
        assert(lo * (w * (1 - x)) + hi * (w * x) == (lo + x * (hi - lo)) * w) by (nonlinear_arith);
    }
    lemma_sum_ext(both, g, m);
}

/// A boolean point gives all its weight to the entry that it names.
pub proof fn lemma_eq_bits(b: int, i: int, n: nat)
    requires
        0 <= b < pow2(n),
        0 <= i < pow2(n),
    ensures
        eq_weight(bits(b, n), i) == (if i == b {
            1int
        } else {
            0int
        }),
    decreases n,
{
    if n == 0 {
        lemma_pow2_small();
    } else {
        let k = (n - 1) as nat;
        lemma_pow2_step(k);
        let r = bits(b, n);
        lemma_bits_len(b, n);
        assert(r.skip(1) =~= bits(b / 2, k));
        assert(r[0] == b % 2);
        lemma_eq_bits(b / 2, i / 2, k);
        let w = eq_weight(r.skip(1), i / 2);
        assert(1 * w == w && 0 * w == 0) by (nonlinear_arith);
    }
}

/// At a boolean point the extension takes the table's value.
pub proof fn lemma_mle_bits(table: Seq<int>, b: int, n: nat)
    requires
        0 <= b < pow2(n),
    ensures
        mle(table, bits(b, n)) == table[b],
{
    lemma_bits_len(b, n);
    let f = |i: int| table[i] * eq_weight(bits(b, n), i);
    assert forall|i: int| 0 <= i < pow2(n) && i != b implies #[trigger] f(i) == 0 by {
        lemma_eq_bits(b, i, n);
        assert(table[i] * 0 == 0) by (nonlinear_arith);
    }
    lemma_eq_bits(b, b, n);
    assert(table[b] * 1 == table[b]) by (nonlinear_arith);
    lemma_sum_single(f, b, pow2(n) as int);
}

pub proof fn lemma_mle_cong(a: Seq<int>, b: Seq<int>, r: Seq<int>)
    requires
        table_cong(a, b),
        a.len() >= pow2(r.len()),
    ensures
        cong(mle(a, r), mle(b, r)),
{
    let f = |i: int| a[i] * eq_weight(r, i);
    let g = |i: int| b[i] * eq_weight(r, i);
    assert forall|i: int| 0 <= i < pow2(r.len()) implies cong(#[trigger] f(i), g(i)) by {
        lemma_cong_mul(a[i], b[i], eq_weight(r, i), eq_weight(r, i));
    }
    lemma_sum_cong(f, g, pow2(r.len()) as int);
}

/// The weight of an entry is the product of the weights of its low and its high bits.
pub proof fn lemma_eq_concat(z: Seq<int>, w: Seq<int>, l: int, h: int)
    requires
        0 <= l < pow2(z.len()),
        0 <= h,
    ensures
        eq_weight(z + w, h * pow2(z.len()) + l) == eq_weight(z, l) * eq_weight(w, h),
    decreases z.len(),
{
    if z.len() == 0 {
        lemma_pow2_small();
        assert(z + w =~= w);
        assert(h * 1 + l == h) by (nonlinear_arith)
            requires
                l == 0,
        ;
        assert(1 * eq_weight(w, h) == eq_weight(w, h)) by (nonlinear_arith);
    } else {
        let t = z.skip(1);
        let m = pow2(t.len()) as int;
        lemma_pow2_step(t.len());
        assert((z + w).skip(1) =~= t + w);
        assert((z + w)[0] == z[0]);
        lemma_eq_concat(t, w, l / 2, h);
        let i = h * (2 * m) + l;
        assert(i == 2 * (h * m) + l) by (nonlinear_arith)
            requires
                i == h * (2 * m) + l,
        ;
        assert(i % 2 == l % 2);
        assert(i / 2 == h * m + l / 2);
        let c = if l % 2 == 1 {
            z[0]
        } else {
            1 - z[0]
        };
        let a = eq_weight(t, l / 2);
        let b = eq_weight(w, h);
        assert(c * (a * b) == (c * a) * b) by (nonlinear_arith);
    }
}

/// The block of a table whose entries have `h` as their high bits above the `k` low ones.
pub open spec fn block(table: Seq<int>, k: nat, h: int) -> Seq<int> {
    Seq::new(pow2(k), |l: int| table[h * pow2(k) + l])
}

/// The extension, evaluated block by block.
pub proof fn lemma_mle_concat(table: Seq<int>, z: Seq<int>, w: Seq<int>)
    ensures
        mle(table, z + w) == sum_to(
            |h: int| eq_weight(w, h) * mle(block(table, z.len(), h), z),
            pow2(w.len()) as int,
        ),
{
    let m = pow2(z.len()) as int;
    let a = pow2(w.len()) as int;
    vstd::arithmetic::power2::lemma_pow2_adds(z.len(), w.len());
    assert(m * a == a * m) by (nonlinear_arith);
    let f = |i: int| table[i] * eq_weight(z + w, i);
    lemma_sum_blocks(f, a, m);
    let rows = |h: int| sum_to(|l: int| f(h * m + l), m);
    let goal = |h: int| eq_weight(w, h) * mle(block(table, z.len(), h), z);
    assert forall|h: int| 0 <= h < a implies #[trigger] rows(h) == goal(h) by {
        let inner = |l: int| f(h * m + l);
        let t = block(table, z.len(), h);
        let g = |l: int| t[l] * eq_weight(z, l);
        let e = eq_weight(w, h);
        let scaled = |l: int| e * g(l);
        assert forall|l: int| 0 <= l < m implies #[trigger] inner(l) == scaled(l) by {
            lemma_eq_concat(z, w, l, h);
            let v = table[h * m + l];
            let x = eq_weight(z, l);
            assert(v * (x * e) == e * (v * x)) by (nonlinear_arith);
        }
        lemma_sum_ext(inner, scaled, m);
        lemma_sum_scale(e, g, m);
    }
    lemma_sum_ext(rows, goal, a);
    assert((z + w).len() == z.len() + w.len());
}

/// The table of the polynomial with variable `k` fixed to `x`.
pub open spec fn fold_at(table: Seq<int>, k: nat, x: int) -> Seq<int> {
    Seq::new(
        table.len() / 2,
        |i: int|
            {
                let m = pow2(k) as int;
                let lo = table[(i / m) * (2 * m) + i % m];
                let hi = table[(i / m) * (2 * m) + m + i % m];
                lo + x * (hi - lo)
            },
    )
}

/// Fixing a variable and then evaluating is evaluating with the variable at its place.
pub proof fn lemma_mle_fold_at(table: Seq<int>, z: Seq<int>, x: int, w: Seq<int>)
    requires
        table.len() == pow2(z.len() + 1 + w.len()),
    ensures
        mle(table, z + seq![x] + w) == mle(fold_at(table, z.len(), x), z + w),
{
    let k = z.len();
    let m = pow2(k) as int;
    let a = pow2(w.len()) as int;
    let zx = z.push(x);
    let folded = fold_at(table, k, x);
    lemma_pow2_step(k);
    lemma_pow2_step(k + w.len());
    vstd::arithmetic::power2::lemma_pow2_adds(k, w.len());
    assert(z + seq![x] + w =~= zx + w);
    lemma_mle_concat(table, zx, w);
    lemma_mle_concat(folded, z, w);
    let f = |h: int| eq_weight(w, h) * mle(block(table, zx.len(), h), zx);
    let g = |h: int| eq_weight(w, h) * mle(block(folded, z.len(), h), z);
    assert forall|h: int| 0 <= h < a implies #[trigger] f(h) == g(h) by {
        let big = block(table, zx.len(), h);
        lemma_mle_fold_high(big, x, z);
        let small = fold_high(big, x);
        let other = block(folded, k, h);
        assert(small =~= other) by {
            assert forall|l: int| 0 <= l < m implies #[trigger] small[l] == other[l] by {
                let i = h * m + l;
                lemma_div_mod_unique(i, m, h, l);
                assert(0 <= i < folded.len()) by (nonlinear_arith)
                    requires
                        0 <= h < a,
                        0 <= l < m,
                        i == h * m + l,
                        folded.len() == m * a,
                ;
                assert(h * (2 * m) + (l + m) == h * (2 * m) + m + l);
            }
        }
    }
    lemma_sum_ext(f, g, a);
}

/// The weight of an entry depends on as many of its low bits as the point has coordinates.
pub proof fn lemma_eq_low(r: Seq<int>, l: int, h: int)
    requires
        0 <= l < pow2(r.len()),
        0 <= h,
    ensures
        eq_weight(r, h * pow2(r.len()) + l) == eq_weight(r, l),
{
    let none = Seq::<int>::empty();
    assert(r + none =~= r);
    lemma_eq_concat(r, none, l, h);
    let e = eq_weight(r, l);
    assert(e * 1 == e) by (nonlinear_arith);
}

/// With boolean values for the high variables, the extension is that of one block.
pub proof fn lemma_mle_low(table: Seq<int>, r: Seq<int>, q: int, m: nat)
    requires
        0 <= q < pow2(m),
    ensures
        mle(table, r + bits(q, m)) == mle(block(table, r.len(), q), r),
{
    let w = bits(q, m);
    lemma_bits_len(q, m);
    lemma_mle_concat(table, r, w);
    let f = |h: int| eq_weight(w, h) * mle(block(table, r.len(), h), r);
    assert forall|h: int| 0 <= h < pow2(m) && h != q implies #[trigger] f(h) == 0 by {
        lemma_eq_bits(q, h, m);
        let v = mle(block(table, r.len(), h), r);
        assert(0 * v == 0) by (nonlinear_arith);
    }
    lemma_eq_bits(q, q, m);
    let v = mle(block(table, r.len(), q), r);
    assert(1 * v == v) by (nonlinear_arith);
    lemma_sum_single(f, q, pow2(m) as int);
}

/// With boolean values for the low variables, the extension is a weighted sum of one entry of each
/// block.
pub proof fn lemma_mle_high_sum(table: Seq<int>, q: int, k: nat, r: Seq<int>)
    requires
        0 <= q < pow2(k),
    ensures
        mle(table, bits(q, k) + r) == sum_to(
            |h: int| eq_weight(r, h) * table[h * pow2(k) + q],
            pow2(r.len()) as int,
        ),
{
    let z = bits(q, k);
    lemma_bits_len(q, k);
    lemma_mle_concat(table, z, r);
    let f = |h: int| eq_weight(r, h) * mle(block(table, z.len(), h), z);
    let g = |h: int| eq_weight(r, h) * table[h * pow2(k) + q];
    assert forall|h: int| 0 <= h < pow2(r.len()) implies #[trigger] f(h) == g(h) by {
        lemma_mle_bits(block(table, k, h), q, k);
    }
    lemma_sum_ext(f, g, pow2(r.len()) as int);
}

/// The table of the polynomial with its last variables fixed to `r` and `k` variables left.
pub open spec fn fixed_high(table: Seq<int>, k: nat, r: Seq<int>) -> Seq<int> {
    Seq::new(pow2(k), |q: int| mle(table, bits(q, k) + r))
}

/// Fixing the last variables and then evaluating is evaluating with them at the end.
pub proof fn lemma_mle_fixed_high(table: Seq<int>, w: Seq<int>, r: Seq<int>)
    ensures
        mle(fixed_high(table, w.len(), r), w) == mle(table, w + r),
{
    let k = w.len();
    let m = pow2(k) as int;
    let a = pow2(r.len()) as int;
    let fixed = fixed_high(table, k, r);
    let term = |q: int, h: int| (eq_weight(r, h) * table[h * m + q]) * eq_weight(w, q);
    let f = |q: int| fixed[q] * eq_weight(w, q);
    let rows = |q: int| sum_to(|h: int| term(q, h), a);
    assert forall|q: int| 0 <= q < m implies #[trigger] f(q) == rows(q) by {
        lemma_mle_high_sum(table, q, k, r);
        let g = |h: int| eq_weight(r, h) * table[h * m + q];
        let e = eq_weight(w, q);
        lemma_sum_scale(e, g, a);
        let scaled = |h: int| e * g(h);
        let row = |h: int| term(q, h);
        assert forall|h: int| 0 <= h < a implies #[trigger] scaled(h) == row(h) by {
            let v = g(h);
            assert(e * v == v * e) by (nonlinear_arith);
        }
        lemma_sum_ext(scaled, row, a);
        let s = sum_to(g, a);
        assert(e * s == s * e) by (nonlinear_arith);
    }
    lemma_sum_ext(f, rows, m);
    lemma_sum_swap(term, m, a);
    let cols = |h: int| sum_to(|q: int| term(q, h), m);
    lemma_mle_concat(table, w, r);
    let goal = |h: int| eq_weight(r, h) * mle(block(table, w.len(), h), w);
    assert forall|h: int| 0 <= h < a implies #[trigger] cols(h) == goal(h) by {
        let b = block(table, w.len(), h);
        let g = |q: int| b[q] * eq_weight(w, q);
        let e = eq_weight(r, h);
        lemma_sum_scale(e, g, m);
        let scaled = |q: int| e * g(q);
        let col = |q: int| term(q, h);
        assert forall|q: int| 0 <= q < m implies #[trigger] scaled(q) == col(q) by {
            let t = table[h * m + q];
            let x = eq_weight(w, q);
            assert(e * (t * x) == (e * t) * x) by (nonlinear_arith);
        }
        lemma_sum_ext(scaled, col, m);
    }
    lemma_sum_ext(cols, goal, a);
}

/// The weights of all entries add up to one.
pub proof fn lemma_eq_sum(r: Seq<int>)
    ensures
        sum_to(|i: int| eq_weight(r, i), pow2(r.len()) as int) == 1,
    decreases r.len(),
{
    let f = |i: int| eq_weight(r, i);
    if r.len() == 0 {
        lemma_pow2_small();
        assert(sum_to(f, 1) == sum_to(f, 0) + f(0));
    } else {
        let t = r.skip(1);
        let m = pow2(t.len()) as int;
        lemma_pow2_step(t.len());
        lemma_eq_sum(t);
        lemma_sum_pairs(f, m);
        let pairs = |b: int| f(2 * b) + f(2 * b + 1);
        let g = |b: int| eq_weight(t, b);
        assert forall|b: int| 0 <= b < m implies #[trigger] pairs(b) == g(b) by {
            assert((2 * b) % 2 == 0 && (2 * b) / 2 == b);
            assert((2 * b + 1) % 2 == 1 && (2 * b + 1) / 2 == b);
            let w = eq_weight(t, b);
            let x = r[0];
            assert((1 - x) * w + x * w == w) by (nonlinear_arith);
        }
        lemma_sum_ext(pairs, g, m);
    }
}

/// The extension only reads the entries that the point's dimension spans.
pub proof fn lemma_mle_prefix(a: Seq<int>, b: Seq<int>, r: Seq<int>)
    requires
        forall|i: int| 0 <= i < pow2(r.len()) ==> #[trigger] a[i] == b[i],
    ensures
        mle(a, r) == mle(b, r),
{
    let f = |i: int| a[i] * eq_weight(r, i);
    let g = |i: int| b[i] * eq_weight(r, i);
    lemma_sum_ext(f, g, pow2(r.len()) as int);
}

/// The product of the agreements of two points, coordinate by coordinate.
pub open spec fn eq_at(a: Seq<int>, b: Seq<int>) -> int {
    product_to(|j: int| a[j] * b[j] + (1 - a[j]) * (1 - b[j]), a.len() as int)
}

/// The table of the weights of one point, evaluated at another.
pub proof fn lemma_eq_at(a: Seq<int>, b: Seq<int>)
    requires
        a.len() == b.len(),
    ensures
        sum_to(|i: int| eq_weight(a, i) * eq_weight(b, i), pow2(a.len()) as int) == eq_at(a, b),
    decreases a.len(),
{
    let f = |i: int| eq_weight(a, i) * eq_weight(b, i);
    lemma_pow2_small();
    if a.len() == 0 {
        assert(sum_to(f, 1) == sum_to(f, 0) + f(0));
        assert(1 * 1 == 1int) by (nonlinear_arith);
    } else {
        let (p, q) = (a.drop_last(), b.drop_last());
        let (x, y) = (a.last(), b.last());
        let k = p.len();
        let m = pow2(k) as int;
        lemma_eq_at(p, q);
        lemma_pow2_step(k);
        assert(a =~= p.push(x));
        assert(b =~= q.push(y));
        lemma_sum_split(f, m, m);
        let g = |i: int| eq_weight(p, i) * eq_weight(q, i);
        let c = x * y + (1 - x) * (1 - y);
        lemma_sum_scale(c, g, m);
        let scaled = |i: int| c * g(i);
        let up = |i: int| f(m + i);
        lemma_sum_add(f, up, m);
        let both = |i: int| f(i) + up(i);
        assert forall|i: int| 0 <= i < m implies #[trigger] both(i) == scaled(i) by {
            lemma_eq_push(p, x, i);
            lemma_eq_push(q, y, i);
            let (u, w) = (eq_weight(p, i), eq_weight(q, i));
            let (nx, ny) = (1 - x, 1 - y);
            assert((u * nx) * (w * ny) == (nx * ny) * (u * w)) by (nonlinear_arith);
            assert((u * x) * (w * y) == (x * y) * (u * w)) by (nonlinear_arith);
            let (s, t, v) = (x * y, nx * ny, u * w);
            assert(s * v + t * v == (s + t) * v) by (nonlinear_arith);
        }
        lemma_sum_ext(both, scaled, m);
        let fa = |j: int| a[j] * b[j] + (1 - a[j]) * (1 - b[j]);
        let fp = |j: int| p[j] * q[j] + (1 - p[j]) * (1 - q[j]);
        lemma_product_ext(fa, fp, k as int);
        let s = product_to(fp, k as int);
        assert(c * s == s * c) by (nonlinear_arith);
        assert(product_to(fa, (k + 1) as int) == product_to(fa, k as int) * fa(k as int));
    }
}

} // verus!
