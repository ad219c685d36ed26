//! Fixing any subset of a dense polynomial's variables.
use crate::field::{lemma_fr_range, modulus, vals, Fr};
use crate::math::{
    cong, lemma_div_mod_unique, lemma_pow2_mono, lemma_pow2_step, lemma_reduced, two_to,
};
use crate::mle::{
    bits, fold_at, lemma_bits_len, lemma_mle_bits, lemma_mle_cong, lemma_mle_fold_at,
    lemma_mle_prefix, mle, table_cong,
};
use crate::poly::dense::{interpolate, lemma_shift_fits, DenseMLPoly};
use vstd::arithmetic::power2::pow2;
use vstd::prelude::*;

verus! {

/// The value that a list of assignments gives variable `v`, if it gives one.
pub open spec fn assigned(fixed: Seq<(usize, Fr)>, v: int) -> Option<int> {
    if exists|j: int| 0 <= j < fixed.len() && (#[trigger] fixed[j]).0 == v {
        Some(fixed[choose|j: int| 0 <= j < fixed.len() && (#[trigger] fixed[j]).0 == v].1@)
    } else {
        None
    }
}

/// Every assignment is to a variable below `n`, and no variable is assigned twice.
pub open spec fn valid_assignments(fixed: Seq<(usize, Fr)>, n: int) -> bool {
    &&& forall|j: int| 0 <= j < fixed.len() ==> (#[trigger] fixed[j]).0 < n
    &&& forall|i: int, j: int|
        0 <= i < j < fixed.len() ==> (#[trigger] fixed[i]).0 != (#[trigger] fixed[j]).0
}

/// The number of variables in `v..values.len()` that have no value.
pub open spec fn free_from(values: Seq<Option<int>>, v: int) -> nat
    decreases values.len() - v,
{
    if v >= values.len() {
        0
    } else if values[v] is Some {
        free_from(values, v + 1)
    } else {
        free_from(values, v + 1) + 1
    }
}

/// The coordinates of the variables `v..values.len()`: a variable with a value takes it, and the
/// others take the entries of `w` in order.
pub open spec fn merged(values: Seq<Option<int>>, v: int, w: Seq<int>) -> Seq<int>
    decreases values.len() - v,
{
    if v >= values.len() {
        seq![]
    } else if values[v] is Some {
        seq![values[v]->0] + merged(values, v + 1, w)
    } else {
        seq![w[0]] + merged(values, v + 1, w.skip(1))
    }
}

/// The values that a list of assignments gives the variables of a polynomial.
pub open spec fn values_of(fixed: Seq<(usize, Fr)>, n: nat) -> Seq<Option<int>> {
    Seq::new(n, |v: int| assigned(fixed, v))
}

/// Collapses variable `k` of the table in `poly[..2^(k + 1 + above)]` to the value `x`; the result
/// stands in `poly[..2^(k + above)]`.
fn collapse(poly: &mut Vec<Fr>, k: usize, above: usize, x: Fr)
    requires
        k + 1 + above < usize::BITS,
        old(poly)@.len() >= pow2((k + 1 + above) as nat),
    ensures
        final(poly)@.len() == old(poly)@.len(),
        table_cong(
            vals(final(poly)@).take(pow2((k + above) as nat) as int),
            fold_at(vals(old(poly)@).take(pow2((k + 1 + above) as nat) as int), k as nat, x@),
        ),
{
    let ghost before = poly@;
    assert(before.len() == poly.len());
    let m = two_to(k);
    let a = two_to(above);
    proof {
        lemma_pow2_step((k + above) as nat);
        lemma_pow2_step(k as nat);
        vstd::arithmetic::power2::lemma_pow2_adds(k as nat, above as nat);
        assert(m * a == a * m) by (nonlinear_arith);
    }
    let ghost cut = vals(before).take(pow2((k + 1 + above) as nat) as int);
    let ghost folded = fold_at(cut, k as nat, x@);
    let mut h: usize = 0;
    while h < a
        invariant
            h <= a,
            m == pow2(k as nat),
            m > 0,
            m * a == pow2((k + above) as nat),
            2 * (m * a) <= before.len(),
            poly.len() == before.len(),
            before.len() <= usize::MAX,
            cut == vals(before).take(2 * (m * a)),
            folded == fold_at(cut, k as nat, x@),
            forall|i: int| 0 <= i < h * m ==> cong((#[trigger] poly@[i])@, folded[i]),
            forall|i: int| h * m <= i < before.len() ==> #[trigger] poly@[i] == before[i],
        decreases a - h,
    {
        let mut l: usize = 0;
        proof {
            assert(h * m + m <= m * a) by (nonlinear_arith)
                requires
                    h + 1 <= a,
            ;
            assert(h * (2 * m) == 2 * (h * m)) by (nonlinear_arith);
            assert(0 <= h * m) by (nonlinear_arith);
        }
        while l < m
            invariant
                l <= m,
                h < a,
                m == pow2(k as nat),
                m > 0,
                h * m + m <= m * a,
                0 <= h * m,
                h * (2 * m) == 2 * (h * m),
                2 * (m * a) <= before.len(),
                poly.len() == before.len(),
                before.len() <= usize::MAX,
                cut == vals(before).take(2 * (m * a)),
                folded == fold_at(cut, k as nat, x@),
                forall|i: int| 0 <= i < h * m + l ==> cong((#[trigger] poly@[i])@, folded[i]),
                forall|i: int|
                    h * m + l <= i < before.len() ==> #[trigger] poly@[i] == before[i],
            decreases m - l,
        {
            let lo = h * m * 2 + l;
            let left = poly[lo];
            let right = poly[lo + m];
            let v = interpolate(left, right, x);
            proof {
                let i = h * m + l;
                lemma_div_mod_unique(i, m as int, h as int, l as int);
                assert(lo + m == h * (2 * m) + m + l);
                assert(folded[i] == left@ + x@ * (right@ - left@));
                lemma_reduced(folded[i]);
            }
            poly.set(h * m + l, v);
            l += 1;
        }
        proof {
            assert((h + 1) * m == h * m + m) by (nonlinear_arith);
        }
        h += 1;
    }
    proof {
        assert(table_cong(vals(poly@).take((m * a) as int), folded)) by {
            assert forall|i: int| 0 <= i < m * a implies cong(
                #[trigger] vals(poly@).take((m * a) as int)[i],
                folded[i],
            ) by {
                assert(cong(poly@[i]@, folded[i]));
            }
        }
    }
}

/// Fixes the assigned variables, wherever they stand, and keeps the others in their order.
pub fn fix_many(dense_poly: &DenseMLPoly, fixed: &[(usize, Fr)]) -> (r: DenseMLPoly)
    requires
        valid_assignments(fixed@, dense_poly.n as int),
        fixed@.len() > 0 ==> dense_poly.covers(),
    ensures
        fixed@.len() == 0 ==> r.n == dense_poly.n && r.evaluations@ == dense_poly.evaluations@,
        fixed@.len() > 0 ==> r.well_formed() && r.n == dense_poly.n - fixed@.len() && forall|b: int|
            0 <= b < pow2(r.n as nat) ==> #[trigger] r.evaluations@[b]@ == mle(
                dense_poly.table(),
                merged(values_of(fixed@, dense_poly.n as nat), 0, bits(b, r.n as nat)),
            ) % modulus(),
{
    if fixed.len() == 0 {
        return dense_poly.clone();
    }
    let n = dense_poly.n;
    let ghost values = values_of(fixed@, n as nat);
    let ghost table = dense_poly.table();
    proof {
        lemma_shift_fits(dense_poly.evaluations.len() as nat, n as nat);
    }
    let mut value_by_var: Vec<Option<Fr>> = Vec::with_capacity(n);
    let mut v: usize = 0;
    while v < n
        invariant
            v <= n,
            value_by_var@ == Seq::new(v as nat, |i: int| None::<Fr>),
        decreases n - v,
    {
        value_by_var.push(None);
        v += 1;
    }
    let mut j: usize = 0;
    while j < fixed.len()
        invariant
            j <= fixed@.len(),
            valid_assignments(fixed@, n as int),
            value_by_var@.len() == n,
            forall|i: int|
                0 <= i < j ==> #[trigger] value_by_var@[fixed@[i].0 as int] == Some(fixed@[i].1),
            forall|v: int|
                0 <= v < n && (#[trigger] value_by_var@[v]) is Some ==> exists|i: int|
                    0 <= i < j && (#[trigger] fixed@[i]).0 == v,
        decreases fixed.len() - j,
    {
        let (var, val) = fixed[j];
        let ghost prev = value_by_var@;
        value_by_var.set(var, Some(val));
        proof {
            assert forall|v: int| 0 <= v < n && (#[trigger] value_by_var@[v]) is Some implies exists|
                i: int,
            |
                0 <= i < j + 1 && (#[trigger] fixed@[i]).0 == v by {
                if v == var {
                    assert(fixed@[j as int].0 == v);
                } else {
                    assert(prev[v] is Some);
                }
            }
        }
        j += 1;
    }
    proof {
        assert forall|v: int| 0 <= v < n implies match #[trigger] value_by_var@[v] {
            Some(x) => values[v] == Some(x@),
            None => values[v] is None,
        } by {
            if value_by_var@[v] is Some {
                let i = choose|i: int| 0 <= i < fixed@.len() && (#[trigger] fixed@[i]).0 == v;
                assert(value_by_var@[fixed@[i].0 as int] == Some(fixed@[i].1));
                let c = choose|j: int| 0 <= j < fixed@.len() && (#[trigger] fixed@[j]).0 == v;
                assert(fixed@[c].0 == v);
                assert(c == i);
            } else {
                if exists|j: int| 0 <= j < fixed@.len() && (#[trigger] fixed@[j]).0 == v {
                    let i = choose|j: int| 0 <= j < fixed@.len() && (#[trigger] fixed@[j]).0 == v;
                    assert(value_by_var@[fixed@[i].0 as int] == Some(fixed@[i].1));
                }
            }
        }
        lemma_free_count(fixed@, n as nat);
    }
    let mut poly = Fr::copy_of(dense_poly.evaluations.as_slice());
    let mut v: usize = n;
    let mut above: usize = 0;
    proof {
        assert forall|z: Seq<int>, w: Seq<int>| z.len() == n && w.len() == 0 implies cong(
            #[trigger] mle(vals(poly@), z + w),
            mle(table, z + merged(values, n as int, w)),
        ) by {
            assert(z + w =~= z);
            assert(z + merged(values, n as int, w) =~= z);
        }
    }
    while v > 0
        invariant
            v <= n,
            n < usize::BITS,
            above <= n - v,
            above == free_from(values, v as int),
            values.len() == n,
            value_by_var@.len() == n,
            poly@.len() == dense_poly.evaluations@.len(),
            poly@.len() >= pow2(n as nat),
            forall|i: int|
                0 <= i < n ==> match #[trigger] value_by_var@[i] {
                    Some(x) => values[i] == Some(x@),
                    None => values[i] is None,
                },
            forall|z: Seq<int>, w: Seq<int>|
                z.len() == v && w.len() == above ==> cong(
                    #[trigger] mle(vals(poly@), z + w),
                    mle(table, z + merged(values, v as int, w)),
                ),
        decreases v,
    {
        v -= 1;
        let ghost before = vals(poly@);
        match value_by_var[v] {
            Some(x) => {
                proof {
                    lemma_pow2_mono((v + 1 + above) as nat, n as nat);
                }
                collapse(&mut poly, v, above, x);
                proof {
                    let full = (v + 1 + above) as nat;
                    let part = (v + above) as nat;
                    let cut = before.take(pow2(full) as int);
                    let folded = fold_at(cut, v as nat, x@);
                    let now = vals(poly@).take(pow2(part) as int);
                    assert forall|z: Seq<int>, w: Seq<int>| z.len() == v && w.len()
                        == above implies cong(
                        #[trigger] mle(vals(poly@), z + w),
                        mle(table, z + merged(values, v as int, w)),
                    ) by {
                        lemma_pow2_mono(part, full);
                        lemma_mle_prefix(vals(poly@), now, z + w);
                        lemma_mle_cong(now, folded, z + w);
                        lemma_mle_fold_at(cut, z, x@, w);
                        let zx = z.push(x@);
                        assert(zx + w =~= z + seq![x@] + w);
                        lemma_mle_prefix(cut, before, zx + w);
                        assert(cong(
                            mle(before, zx + w),
                            mle(table, zx + merged(values, v + 1, w)),
                        ));
                        assert(zx + merged(values, v + 1, w) =~= z + merged(values, v as int, w));
                    }
                }
            },
            None => {
                above += 1;
                proof {
                    assert forall|z: Seq<int>, w: Seq<int>| z.len() == v && w.len()
                        == above implies cong(
                        #[trigger] mle(vals(poly@), z + w),
                        mle(table, z + merged(values, v as int, w)),
                    ) by {
                        let zx = z.push(w[0]);
                        let rest = w.skip(1);
                        assert(zx + rest =~= z + w);
                        assert(cong(
                            mle(vals(poly@), zx + rest),
                            mle(table, zx + merged(values, v + 1, rest)),
                        ));
                        assert(zx + merged(values, v + 1, rest) =~= z + merged(
                            values,
                            v as int,
                            w,
                        ));
                    }
                }
            },
        }
    }
    let out_len = two_to(above);
    proof {
        lemma_pow2_mono(above as nat, n as nat);
    }
    let mut out: Vec<Fr> = Vec::with_capacity(out_len);
    let mut b: usize = 0;
    while b < out_len
        invariant
            b <= out_len,
            out_len <= poly@.len(),
            out@ == poly@.take(b as int),
        decreases out_len - b,
    {
        out.push(poly[b]);
        b += 1;
    }
    proof {
        let k = above as nat;
        assert forall|b: int| 0 <= b < pow2(k) implies #[trigger] out@[b]@ == mle(
            table,
            merged(values, 0, bits(b, k)),
        ) % modulus() by {
            lemma_bits_len(b, k);
            lemma_mle_bits(vals(poly@), b, k);
            let z = Seq::<int>::empty();
            let w = bits(b, k);
            assert(z + w =~= w);
            assert(z + merged(values, 0, w) =~= merged(values, 0, w));
            assert(cong(mle(vals(poly@), z + w), mle(table, z + merged(values, 0, w))));
            lemma_fr_range(out@[b]);
            assert(out@[b] == poly@[b]);
        }
    }
    DenseMLPoly { n: above, evaluations: out }
}

/// Distinct assignments leave `n - fixed.len()` variables free.
proof fn lemma_free_count(fixed: Seq<(usize, Fr)>, n: nat)
    requires
        valid_assignments(fixed, n as int),
    ensures
        free_from(values_of(fixed, n), 0) + fixed.len() == n,
    decreases fixed.len(),
{
    let values = values_of(fixed, n);
    if fixed.len() == 0 {
        lemma_all_free(values, 0);
    } else {
        let shorter = fixed.drop_last();
        let fewer = values_of(shorter, n);
        let last = fixed.last().0 as int;
        assert(valid_assignments(shorter, n as int));
        lemma_free_count(shorter, n);
        assert forall|v: int| 0 <= v < n && v != last implies (values[v] is Some) == (
        fewer[v] is Some) by {
            if values[v] is Some {
                let j = choose|j: int| 0 <= j < fixed.len() && (#[trigger] fixed[j]).0 == v;
                assert(shorter[j].0 == v);
            }
            if fewer[v] is Some {
                let j = choose|j: int| 0 <= j < shorter.len() && (#[trigger] shorter[j]).0 == v;
                assert(fixed[j].0 == v);
            }
        }
        assert(values[last] is Some) by {
            assert(fixed[fixed.len() - 1].0 == last);
        }
        assert(fewer[last] is None) by {
            if fewer[last] is Some {
                let j = choose|j: int| 0 <= j < shorter.len() && (#[trigger] shorter[j]).0 == last;
                assert(fixed[j].0 == last);
                assert(fixed[fixed.len() - 1].0 == last);
            }
        }
        lemma_one_less_free(values, fewer, last, 0);
    }
}

proof fn lemma_all_free(values: Seq<Option<int>>, v: int)
    requires
        0 <= v <= values.len(),
        forall|i: int| 0 <= i < values.len() ==> values[i] is None,
    ensures
        free_from(values, v) == values.len() - v,
    decreases values.len() - v,
{
    if v < values.len() {
        lemma_all_free(values, v + 1);
    }
}

proof fn lemma_one_less_free(a: Seq<Option<int>>, b: Seq<Option<int>>, at: int, v: int)
    requires
        a.len() == b.len(),
        0 <= v <= a.len(),
        0 <= at < a.len(),
        a[at] is Some,
        b[at] is None,
        forall|i: int| 0 <= i < a.len() && i != at ==> (a[i] is Some) == (b[i] is Some),
    ensures
        free_from(b, v) == free_from(a, v) + (if v <= at {
            1int
        } else {
            0int
        }),
    decreases a.len() - v,
{
    if v < a.len() {
        lemma_one_less_free(a, b, at, v + 1);
    }
}

/// Values for consecutive variables.
pub struct FixedBlock<'a> {
    /// The first variable of the block.
    pub start: usize,
    /// The values of the variables from `start` on.
    pub points: &'a [Fr],
}

/// The assignments that a list of blocks makes, in order.
pub open spec fn block_assignments(blocks: Seq<FixedBlock>) -> Seq<(usize, Fr)>
    decreases blocks.len(),
{
    if blocks.len() == 0 {
        seq![]
    } else {
        let last = blocks.last();
        block_assignments(blocks.drop_last()) + Seq::new(
            last.points@.len(),
            |i: int| ((last.start + i) as usize, last.points@[i]),
        )
    }
}

/// Fixes the variables of all the blocks.
pub fn fix_blocks(dense_poly: &DenseMLPoly, blocks: &[FixedBlock<'_>]) -> (r: DenseMLPoly)
    requires
        forall|i: int|
            0 <= i < blocks@.len() ==> (#[trigger] blocks@[i]).start + blocks@[i].points@.len()
                <= usize::MAX,
        valid_assignments(block_assignments(blocks@), dense_poly.n as int),
        block_assignments(blocks@).len() > 0 ==> dense_poly.covers(),
    ensures
        ({
            let fixed = block_assignments(blocks@);
            &&& fixed.len() == 0 ==> r.n == dense_poly.n && r.evaluations@
                == dense_poly.evaluations@
            &&& fixed.len() > 0 ==> r.well_formed() && r.n == dense_poly.n - fixed.len()
                && forall|b: int|
                0 <= b < pow2(r.n as nat) ==> #[trigger] r.evaluations@[b]@ == mle(
                    dense_poly.table(),
                    merged(values_of(fixed, dense_poly.n as nat), 0, bits(b, r.n as nat)),
                ) % modulus()
        }),
{
    let mut assignments: Vec<(usize, Fr)> = Vec::new();
    let mut i: usize = 0;
    while i < blocks.len()
        invariant
            i <= blocks@.len(),
            forall|i: int|
                0 <= i < blocks@.len() ==> (#[trigger] blocks@[i]).start
                    + blocks@[i].points@.len() <= usize::MAX,
            assignments@ == block_assignments(blocks@.take(i as int)),
        decreases blocks.len() - i,
    {
        let start = blocks[i].start;
        let points = blocks[i].points;
        let ghost before = assignments@;
        let ghost last = blocks@[i as int];
        let mut offset: usize = 0;
        while offset < points.len()
            invariant
                offset <= points@.len(),
                start + points@.len() <= usize::MAX,
                start == last.start,
                points@ == last.points@,
                assignments@ == before + Seq::new(
                    offset as nat,
                    |i: int| ((last.start + i) as usize, last.points@[i]),
                ),
            decreases points.len() - offset,
        {
            assignments.push((start + offset, points[offset]));
            offset += 1;
        }
        proof {
            let longer = blocks@.take(i + 1);
            assert(longer.drop_last() =~= blocks@.take(i as int));
            assert(longer.last() == last);
        }
        i += 1;
    }
    proof {
        assert(blocks@.take(blocks@.len() as int) =~= blocks@);
    }
    fix_many(dense_poly, assignments.as_slice())
}

} // verus!
