//! Fixing variables of a table of small integers.
use crate::field::{lemma_fr_range, modulus, vals, CryptoField, Fr};
use crate::math::{
    cong, lemma_cong_add, lemma_cong_mul, lemma_cong_sub, lemma_reduced, sum_to, two_to,
};
use crate::mle::{
    bits, block, eq_weight, lemma_mle_concat, lemma_mle_cong, lemma_mle_low, mle,
};
use crate::poly::dense::{fixes_low, precompute_eq, DenseMLPoly};
use vstd::arithmetic::power2::pow2;
use vstd::prelude::*;

verus! {

/// The integers of a table.
pub open spec fn ints(t: Seq<i128>) -> Seq<int> {
    t.map_values(|x: i128| x as int)
}

/// The multiples `0, 1, ..., max_t` of each element, row after row.
fn multiples(steps: &Vec<Fr>, max_t: usize) -> (fm: Vec<Fr>)
    requires
        max_t < usize::MAX,
        steps@.len() * (max_t + 1) <= usize::MAX,
    ensures
        fm@.len() == steps@.len() * (max_t + 1),
        forall|b: int, t: int|
            0 <= b < steps@.len() && 0 <= t <= max_t ==> cong(
                (#[trigger] fm@[b * (max_t + 1) + t])@,
                t * steps@[b]@,
            ),
{
    let width: usize = max_t + 1;
    let mut fm: Vec<Fr> = Vec::new();
    let mut b: usize = 0;
    while b < steps.len()
        invariant
            b <= steps@.len(),
            width == max_t + 1,
            steps@.len() * width <= usize::MAX,
            fm@.len() == b * width,
            forall|c: int, t: int|
                0 <= c < b && 0 <= t < width ==> cong(
                    (#[trigger] fm@[c * width + t])@,
                    t * steps@[c]@,
                ),
        decreases steps.len() - b,
    {
        let step = steps[b];
        let mut value = Fr::zero();
        let mut t: usize = 0;
        proof {
            let s = step@;
            assert(0 * s == 0) by (nonlinear_arith);
            assert(0 <= b * width) by (nonlinear_arith);
        }
        while t < width
            invariant
                t <= width,
                width == max_t + 1,
                b < steps@.len(),
                step == steps@[b as int],
                0 <= b * width,
                fm@.len() == b * width + t,
                cong(value@, t * step@),
                forall|c: int, u: int|
                    0 <= c < b && 0 <= u < width ==> cong(
                        (#[trigger] fm@[c * width + u])@,
                        u * steps@[c]@,
                    ),
                forall|u: int| 0 <= u < t ==> cong((#[trigger] fm@[b * width + u])@, u * step@),
            decreases width - t,
        {
            let ghost before = fm@;
            fm.push(value);
            let next = value.add(step);
            proof {
                let s = step@;
                let tt = t as int;
                lemma_cong_add(value@, tt * s, s, s);
                lemma_reduced(value@ + s);
                assert((tt + 1) * s == tt * s + s) by (nonlinear_arith);
                assert forall|c: int, u: int| 0 <= c < b && 0 <= u < width implies cong(
                    (#[trigger] fm@[c * width + u])@,
                    u * steps@[c]@,
                ) by {
                    assert(c * width + width <= b * width) by (nonlinear_arith)
                        requires
                            c + 1 <= b,
                    ;
                    assert(0 <= c * width) by (nonlinear_arith)
                        requires
                            0 <= c,
                    ;
                    assert(before[c * width + u] == fm@[c * width + u]);
                }
            }
            value = next;
            t += 1;
        }
        proof {
            assert((b + 1) * width == b * width + width) by (nonlinear_arith);
            assert forall|c: int, u: int| 0 <= c < b + 1 && 0 <= u < width implies cong(
                (#[trigger] fm@[c * width + u])@,
                u * steps@[c]@,
            ) by {
                if c == b {
                    assert(cong(fm@[b * width + u]@, u * step@));
                }
            }
        }
        b += 1;
    }
    fm
}

/// Fixes the first variables of a table of small integers to the point `r`. The multiples of the
/// weights of the lower half of the point are tabled, so that each entry costs one addition.
pub fn fix_variables_zkgpt(num_vars: usize, t_idx: &[i128], r: &[Fr], q_bits: usize) -> (out:
    DenseMLPoly)
    requires
        r@.len() <= num_vars < usize::BITS,
        t_idx@.len() >= pow2(num_vars as nat),
        q_bits < usize::BITS - 1,
        pow2((r@.len() - r@.len() / 2) as nat) * (pow2(q_bits as nat) + 1) <= usize::MAX,
        forall|i: int|
            0 <= i < pow2(num_vars as nat) ==> -pow2(q_bits as nat) <= #[trigger] t_idx@[i]
                <= pow2(q_bits as nat),
    ensures
        fixes_low(out, ints(t_idx@), num_vars as int, vals(r@)),
{
    let logn = r.len();
    let logm = num_vars - logn;
    let n = two_to(logn);
    let m = two_to(logm);
    let left_bits = logn / 2;
    let right_bits = logn - left_bits;
    let y = vstd::slice::slice_subrange(r, 0, right_bits);
    let x = vstd::slice::slice_subrange(r, right_bits, logn);
    let eqy = precompute_eq(y);
    let eqx = precompute_eq(x);
    let max_t = two_to(q_bits);
    let ghost yi = vals(y@);
    let ghost xi = vals(x@);
    let ghost ri = vals(r@);
    let ghost table = ints(t_idx@);
    proof {
        vstd::bits::lemma_usize_pow2_no_overflow(q_bits as nat);
        vstd::bits::lemma_usize_pow2_no_overflow(num_vars as nat);
        assert(yi + xi =~= ri);
        vstd::arithmetic::power2::lemma_pow2_adds(right_bits as nat, left_bits as nat);
        vstd::arithmetic::power2::lemma_pow2_adds(logn as nat, logm as nat);
    }
    let fm = multiples(&eqy, max_t);
    let right_size = two_to(right_bits);
    let left_size = two_to(left_bits);
    let width: usize = max_t + 1;
    let mut out: Vec<Fr> = Vec::with_capacity(m);
    let mut c: usize = 0;
    while c < m
        invariant
            c <= m,
            logn + logm == num_vars,
            num_vars < usize::BITS,
            right_bits + left_bits == logn,
            right_size > 0,
            n == pow2(logn as nat),
            m == pow2(logm as nat),
            n * m == pow2(num_vars as nat),
            n * m <= usize::MAX,
            right_size == pow2(right_bits as nat),
            left_size == pow2(left_bits as nat),
            right_size * left_size == n,
            max_t == pow2(q_bits as nat),
            width == max_t + 1,
            right_size * width <= usize::MAX,
            yi.len() == right_bits,
            xi.len() == left_bits,
            ri == yi + xi,
            eqy@.len() == right_size,
            eqx@.len() == left_size,
            forall|i: int|
                0 <= i < right_size ==> (#[trigger] eqy@[i])@ == eq_weight(yi, i) % modulus(),
            forall|i: int|
                0 <= i < left_size ==> (#[trigger] eqx@[i])@ == eq_weight(xi, i) % modulus(),
            fm@.len() == right_size * width,
            forall|b: int, t: int|
                0 <= b < right_size && 0 <= t < width ==> cong(
                    (#[trigger] fm@[b * width + t])@,
                    t * eqy@[b]@,
                ),
            table == ints(t_idx@),
            t_idx@.len() >= n * m,
            forall|i: int| 0 <= i < n * m ==> -max_t <= #[trigger] t_idx@[i] <= max_t,
            out@.len() == c,
            forall|d: int|
                0 <= d < c ==> (#[trigger] out@[d])@ == mle(table, ri + bits(d, logm as nat))
                    % modulus(),
        decreases m - c,
    {
        let ghost column = block(table, logn as nat, c as int);
        let ghost f = |l: int| eq_weight(xi, l) * mle(block(column, right_bits as nat, l), yi);
        proof {
            assert(c * n + n <= n * m) by (nonlinear_arith)
                requires
                    c + 1 <= m,
            ;
            assert(0 <= c * n) by (nonlinear_arith);
        }
        let col_base: usize = c * n;
        let mut acc = Fr::zero();
        let mut bl: usize = 0;
        while bl < left_size
            invariant
                bl <= left_size,
                col_base == c * n,
                0 <= c * n,
                c * n + n <= n * m,
                n * m <= usize::MAX,
                n == pow2(logn as nat),
                right_size == pow2(right_bits as nat),
                right_size > 0,
                right_size * left_size == n,
                width == max_t + 1,
                right_size * width <= usize::MAX,
                yi.len() == right_bits,
                xi.len() == left_bits,
                eqy@.len() == right_size,
                eqx@.len() == left_size,
                forall|i: int|
                    0 <= i < right_size ==> (#[trigger] eqy@[i])@ == eq_weight(yi, i) % modulus(),
                forall|i: int|
                    0 <= i < left_size ==> (#[trigger] eqx@[i])@ == eq_weight(xi, i) % modulus(),
                fm@.len() == right_size * width,
                forall|b: int, t: int|
                    0 <= b < right_size && 0 <= t < width ==> cong(
                        (#[trigger] fm@[b * width + t])@,
                        t * eqy@[b]@,
                    ),
                table == ints(t_idx@),
                t_idx@.len() >= n * m,
                forall|i: int| 0 <= i < n * m ==> -max_t <= #[trigger] t_idx@[i] <= max_t,
                column == block(table, logn as nat, c as int),
                f == (|l: int| eq_weight(xi, l) * mle(block(column, right_bits as nat, l), yi)),
                cong(acc@, sum_to(f, bl as int)),
            decreases left_size - bl,
        {
            let ghost cell = block(column, right_bits as nat, bl as int);
            let ghost g = |b: int| cell[b] * eq_weight(yi, b);
            proof {
                assert(bl * right_size + right_size <= right_size * left_size) by (nonlinear_arith)
                    requires
                        bl + 1 <= left_size,
                ;
                assert(0 <= bl * right_size) by (nonlinear_arith);
            }
            let mut ac = Fr::zero();
            let mut br: usize = 0;
            while br < right_size
                invariant
                    br <= right_size,
                    bl < left_size,
                    col_base == c * n,
                    0 <= c * n,
                    c * n + n <= n * m,
                    n * m <= usize::MAX,
                    n == pow2(logn as nat),
                    0 <= bl * right_size,
                    bl * right_size + right_size <= n,
                    right_size == pow2(right_bits as nat),
                    width == max_t + 1,
                    right_size * width <= usize::MAX,
                    eqy@.len() == right_size,
                    forall|i: int|
                        0 <= i < right_size ==> (#[trigger] eqy@[i])@ == eq_weight(yi, i)
                            % modulus(),
                    fm@.len() == right_size * width,
                    forall|b: int, t: int|
                        0 <= b < right_size && 0 <= t < width ==> cong(
                            (#[trigger] fm@[b * width + t])@,
                            t * eqy@[b]@,
                        ),
                    table == ints(t_idx@),
                    t_idx@.len() >= n * m,
                    forall|i: int| 0 <= i < n * m ==> -max_t <= #[trigger] t_idx@[i] <= max_t,
                    column == block(table, logn as nat, c as int),
                    cell == block(column, right_bits as nat, bl as int),
                    g == (|b: int| cell[b] * eq_weight(yi, b)),
                    cong(ac@, sum_to(g, br as int)),
                decreases right_size - br,
            {
                let b: usize = bl * right_size + br;
                let t = t_idx[col_base + b];
                let ghost e = eq_weight(yi, br as int);
                let ghost v = t as int;
                proof {
                    assert(-max_t <= t_idx@[col_base + b] <= max_t);
                    assert(cell[br as int] == v) by {
                        assert(column[b as int] == table[c * n + b]);
                    }
                    lemma_reduced(e);
                    assert(br * width + width <= right_size * width) by (nonlinear_arith)
                        requires
                            br + 1 <= right_size,
                    ;
                    assert(0 <= br * width) by (nonlinear_arith);
                }
                let magnitude: usize = if t > 0 {
                    t as usize
                } else {
                    (-t) as usize
                };
                let multiple = fm[br * width + magnitude];
                let next = if t > 0 {
                    ac.add(multiple)
                } else {
                    ac.sub(multiple)
                };
                proof {
                    let k = magnitude as int;
                    assert(cong(fm@[br * width + k]@, k * eqy@[br as int]@));
                    lemma_cong_mul(k, k, eqy@[br as int]@, e);
                    if t > 0 {
                        lemma_cong_add(ac@, sum_to(g, br as int), multiple@, v * e);
                        lemma_reduced(ac@ + multiple@);
                    } else {
                        lemma_cong_sub(ac@, sum_to(g, br as int), multiple@, k * e);
                        lemma_reduced(ac@ - multiple@);
                        assert(-(k * e) == (-k) * e) by (nonlinear_arith);
                    }
                    assert(g(br as int) == v * e);
                }
                ac = next;
                br += 1;
            }
            let weight = eqx[bl];
            let term = weight.mul(ac);
            let next = acc.add(term);
            proof {
                let e = eq_weight(xi, bl as int);
                lemma_reduced(e);
                lemma_cong_mul(weight@, e, ac@, sum_to(g, right_size as int));
                lemma_reduced(weight@ * ac@);
                lemma_cong_add(acc@, sum_to(f, bl as int), term@, f(bl as int));
                lemma_reduced(acc@ + term@);
            }
            acc = next;
            bl += 1;
        }
        proof {
            lemma_mle_low(table, ri, c as int, logm as nat);
            lemma_mle_concat(column, yi, xi);
            lemma_fr_range(acc);
        }
        out.push(acc);
        c += 1;
    }
    DenseMLPoly { n: logm, evaluations: out }
}

/// Fixing the variables of a table of integers gives what fixing the variables of the polynomial of
/// their field elements gives: the same number of variables and the same values, each of them the
/// sum of a block of the table, weighted by the point.
pub proof fn lemma_integer_fix(
    t: Seq<i128>,
    p: DenseMLPoly,
    point: Seq<int>,
    a: DenseMLPoly,
    b: DenseMLPoly,
)
    requires
        p.covers(),
        t.len() >= pow2(p.n as nat),
        forall|i: int|
            0 <= i < pow2(p.n as nat) ==> #[trigger] p.table()[i] == t[i] as int % modulus(),
        point.len() <= p.n,
        fixes_low(a, ints(t), p.n as int, point),
        fixes_low(b, p.table(), p.n as int, point),
    ensures
        a.n == b.n,
        a.table() == b.table(),
        a.n == p.n - point.len(),
        forall|c: int|
            0 <= c < pow2(a.n as nat) ==> #[trigger] a.table()[c] == sum_to(
                |i: int| t[c * pow2(point.len()) + i] * eq_weight(point, i),
                pow2(point.len()) as int,
            ) % modulus(),
{
    let (m, k) = (a.n as nat, point.len());
    vstd::arithmetic::power2::lemma_pow2_adds(k, m);
    assert forall|c: int| 0 <= c < pow2(m) implies #[trigger] a.table()[c] == b.table()[c]
        && a.table()[c] == sum_to(
        |i: int| t[c * pow2(k) + i] * eq_weight(point, i),
        pow2(k) as int,
    ) % modulus() by {
        let (left, right) = (block(ints(t), k, c), block(p.table(), k, c));
        let size = pow2(k) as int;
        assert forall|i: int| 0 <= i < size implies cong(#[trigger] left[i], right[i]) by {
            let at = c * size + i;
            assert(0 <= at < size * pow2(m)) by (nonlinear_arith)
                requires
                    0 <= c,
                    c + 1 <= pow2(m),
                    0 <= i < size,
                    at == c * size + i,
            ;
            assert(p.table()[at] == t[at] as int % modulus());
            lemma_reduced(t[at] as int);
        }
        lemma_mle_low(ints(t), point, c, m);
        lemma_mle_low(p.table(), point, c, m);
        lemma_mle_cong(left, right, point);
        assert(a.evaluations@[c]@ == a.table()[c] && b.evaluations@[c]@ == b.table()[c]);
        let f = |i: int| left[i] * eq_weight(point, i);
        let g = |i: int| t[c * pow2(k) + i] * eq_weight(point, i);
        assert forall|i: int| 0 <= i < size implies #[trigger] f(i) == g(i) by {
            let at = c * size + i;
            assert(0 <= at < size * pow2(m)) by (nonlinear_arith)
                requires
                    0 <= c,
                    c + 1 <= pow2(m),
                    0 <= i < size,
                    at == c * size + i,
            ;
        }
        crate::math::lemma_sum_ext(f, g, size);
    }
    assert(a.table() =~= b.table());
}

} // verus!
