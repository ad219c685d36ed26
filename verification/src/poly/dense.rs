//! Dense multilinear polynomials.
use crate::field::{lemma_fr_range, modulus, vals, CryptoField, Fr};
use crate::math::{
    cong, lemma_cong_add, lemma_cong_mul, lemma_cong_sub, lemma_pow2_mono, lemma_pow2_small,
    lemma_pow2_step, lemma_reduced, lemma_sum_ext, sum_to, two_to,
};
use crate::mle::{
    bits, block, eq_weight, fold_low, lemma_bits_len, lemma_eq_push, lemma_mle_bits,
    lemma_mle_concat, lemma_mle_cong, lemma_mle_fold_low, lemma_mle_prefix, mle, table_cong,
};
use vstd::arithmetic::power2::pow2;
use vstd::prelude::*;

verus! {

/// A multilinear polynomial in `n` variables, held as its values on the boolean points.
#[derive(Debug)]
pub struct DenseMLPoly {
    /// The number of variables.
    pub n: usize,
    /// The value at each boolean point; variable 0 is the lowest bit of the index.
    pub evaluations: Vec<Fr>,
}

/// The line through `left` at 0 and `right` at 1, at the point `x`.
pub fn interpolate(left: Fr, right: Fr, x: Fr) -> (r: Fr)
    ensures
        r@ == (left@ + x@ * (right@ - left@)) % modulus(),
{
    let d = right.sub(left);
    let t = x.mul(d);
    let r = left.add(t);
    proof {
        lemma_reduced(right@ - left@);
        lemma_reduced(x@ * d@);
        lemma_cong_mul(x@, x@, d@, right@ - left@);
        lemma_cong_add(left@, left@, t@, x@ * (right@ - left@));
    }
    r
}

/// Fixes the first variable of the table in `poly[..2 * half]` to `x`; the result stands in
/// `poly[..half]`.
pub fn bind_low(poly: &mut Vec<Fr>, half: usize, x: Fr)
    requires
        2 * half <= old(poly)@.len(),
    ensures
        final(poly)@.len() == old(poly)@.len(),
        table_cong(
            vals(final(poly)@).take(half as int),
            fold_low(vals(old(poly)@).take(2 * half), x@),
        ),
{
    let ghost before = poly@;
    assert(before.len() == poly.len());
    let mut b: usize = 0;
    while b < half
        invariant
            b <= half,
            before.len() >= 2 * half,
            poly.len() == before.len(),
            forall|c: int|
                0 <= c < b ==> (#[trigger] poly@[c])@ == (before[2 * c]@ + x@ * (before[2 * c + 1]@
                    - before[2 * c]@)) % modulus(),
            forall|c: int| b <= c < before.len() ==> #[trigger] poly@[c] == before[c],
        decreases half - b,
    {
        let left = poly[2 * b];
        let right = poly[2 * b + 1];
        poly.set(b, interpolate(left, right, x));
        b += 1;
    }
    proof {
        let folded = fold_low(vals(before).take(2 * half), x@);
        let now = vals(poly@).take(half as int);
        assert forall|c: int| 0 <= c < now.len() implies cong(#[trigger] now[c], folded[c]) by {
            lemma_reduced(folded[c]);
            assert(now[c] == poly@[c]@);
        }
    }
}

impl Clone for DenseMLPoly {
    fn clone(&self) -> (r: DenseMLPoly)
        ensures
            r.n == self.n,
            r.evaluations@ == self.evaluations@,
    {
        DenseMLPoly { n: self.n, evaluations: Fr::copy_of(self.evaluations.as_slice()) }
    }
}

/// The polynomial of a table over `n` variables with its first variables fixed to a point.
pub open spec fn fixes_low(r: DenseMLPoly, table: Seq<int>, n: int, point: Seq<int>) -> bool {
    &&& r.well_formed()
    &&& r.n == n - point.len()
    &&& forall|b: int|
        0 <= b < pow2(r.n as nat) ==> #[trigger] r.evaluations@[b]@ == mle(
            table,
            point + bits(b, r.n as nat),
        ) % modulus()
}

impl DenseMLPoly {
    /// The table of values as integers.
    pub open spec fn table(&self) -> Seq<int> {
        vals(self.evaluations@)
    }

    /// The table holds a value for every boolean point.
    pub open spec fn covers(&self) -> bool {
        self.evaluations@.len() >= pow2(self.n as nat)
    }

    /// The table holds exactly one value for every boolean point.
    pub open spec fn well_formed(&self) -> bool {
        self.evaluations@.len() == pow2(self.n as nat)
    }

    pub fn new(n: usize, evaluations: Vec<Fr>) -> (r: DenseMLPoly)
        ensures
            r.n == n,
            r.evaluations@ == evaluations@,
    {
        DenseMLPoly { n, evaluations }
    }

    /// Fixes the first variables, those of the lowest index bits, to the given values.
    pub fn fix_variables(&self, partial_point: &[Fr]) -> (r: DenseMLPoly)
        requires
            self.covers(),
            partial_point@.len() <= self.n,
        ensures
            fixes_low(r, self.table(), self.n as int, vals(partial_point@)),
    {
        let mut poly = Fr::copy_of(self.evaluations.as_slice());
        let nv = self.n;
        let dim = partial_point.len();
        let ghost point = vals(partial_point@);
        let ghost table = self.table();
        proof {
            lemma_shift_fits(self.evaluations.len() as nat, nv as nat);
            assert(point.take(0) =~= Seq::<int>::empty());
            assert forall|z: Seq<int>| z.len() == nv implies cong(
                #[trigger] mle(vals(poly@), z),
                mle(table, point.take(0) + z),
            ) by {
                assert(point.take(0) + z =~= z);
            }
        }
        let mut i: usize = 0;
        while i < dim
            invariant
                i <= dim,
                dim == partial_point@.len(),
                dim <= nv,
                nv < usize::BITS,
                point == vals(partial_point@),
                poly@.len() >= pow2((nv - i) as nat),
                forall|z: Seq<int>|
                    z.len() == nv - i ==> cong(
                        #[trigger] mle(vals(poly@), z),
                        mle(table, point.take(i as int) + z),
                    ),
            decreases dim - i,
        {
            let r = partial_point[i];
            let num_pairs = two_to(nv - i - 1);
            let ghost before = poly@;
            proof {
                lemma_pow2_step((nv - i - 1) as nat);
            }
            bind_low(&mut poly, num_pairs, r);
            proof {
                let k = (nv - i - 1) as nat;
                let cut = vals(before).take(2 * pow2(k) as int);
                let folded = fold_low(cut, r@);
                let now = vals(poly@).take(pow2(k) as int);
                assert forall|z: Seq<int>| z.len() == k implies cong(
                    #[trigger] mle(vals(poly@), z),
                    mle(table, point.take(i + 1) + z),
                ) by {
                    lemma_mle_prefix(vals(poly@), now, z);
                    lemma_mle_cong(now, folded, z);
                    lemma_mle_fold_low(cut, r@, z);
                    let longer = seq![r@] + z;
                    lemma_mle_prefix(cut, vals(before), longer);
                    let whole = point.take(i as int) + longer;
                    assert(cong(mle(vals(before), longer), mle(table, whole)));
                    assert(point.take(i as int) + longer =~= point.take(i + 1) + z);
                }
            }
            i += 1;
        }
        let out_len = two_to(nv - dim);
        let mut out: Vec<Fr> = Vec::with_capacity(out_len);
        let mut b: usize = 0;
        while b < out_len
            invariant
                b <= out_len,
                out_len <= poly@.len(),
                out@ == poly@.take(b as int),
            decreases out_len - b,
        {
            out.push(poly[b]);
            b += 1;
        }
        proof {
            let k = (nv - dim) as nat;
            assert(point.take(dim as int) =~= point);
            assert forall|b: int| 0 <= b < pow2(k) implies #[trigger] out@[b]@ == mle(
                table,
                point + bits(b, k),
            ) % modulus() by {
                lemma_bits_len(b, k);
                lemma_mle_bits(vals(poly@), b, k);
                assert(cong(mle(vals(poly@), bits(b, k)), mle(table, point + bits(b, k))));
                lemma_fr_range(out@[b]);
                assert(out@[b] == poly@[b]);
            }
        }
        DenseMLPoly { n: nv - dim, evaluations: out }
    }
}

impl DenseMLPoly {
    pub fn len(&self) -> (r: usize)
        ensures
            r == self.evaluations@.len(),
    {
        self.evaluations.len()
    }

    pub fn is_empty(&self) -> (r: bool)
        ensures
            r == (self.evaluations@.len() == 0),
    {
        self.evaluations.len() == 0
    }

    /// The polynomial with the given table, whose length is a power of two.
    pub fn from_evaluations(evaluations: Vec<Fr>) -> (r: DenseMLPoly)
        requires
            exists|n: nat| evaluations@.len() == pow2(n),
        ensures
            r.well_formed(),
            r.evaluations@ == evaluations@,
    {
        let len = evaluations.len();
        let ghost k = choose|n: nat| evaluations@.len() == pow2(n);
        let mut n: usize = 0;
        proof {
            lemma_pow2_small();
            lemma_shift_fits(len as nat, k);
        }
        while two_to(n) < len
            invariant
                n <= k,
                k < usize::BITS,
                len == pow2(k),
            decreases k - n,
        {
            assert(n != k);
            n += 1;
        }
        proof {
            if n < k {
                vstd::arithmetic::power2::lemma_pow2_strictly_increases(n as nat, k);
            }
        }
        DenseMLPoly { n, evaluations }
    }

    pub fn from_evaluations_slice(n: usize, evaluations: &[Fr]) -> (r: DenseMLPoly)
        ensures
            r.n == n,
            r.evaluations@ == evaluations@,
    {
        DenseMLPoly { n, evaluations: Fr::copy_of(evaluations) }
    }

    /// Multiplies every value by a scalar.
    pub fn mul_by_scalar(&self, scalar: Fr) -> (r: DenseMLPoly)
        ensures
            r.n == self.n,
            r.table() =~= Seq::new(
                self.evaluations@.len(),
                |i: int| (self.evaluations@[i]@ * scalar@) % modulus(),
            ),
    {
        let mut out: Vec<Fr> = Vec::with_capacity(self.evaluations.len());
        let mut i: usize = 0;
        while i < self.evaluations.len()
            invariant
                i <= self.evaluations@.len(),
                out@.len() == i,
                forall|j: int|
                    0 <= j < i ==> (#[trigger] out@[j])@ == (self.evaluations@[j]@ * scalar@)
                        % modulus(),
            decreases self.evaluations.len() - i,
        {
            out.push(self.evaluations[i].mul(scalar));
            i += 1;
        }
        DenseMLPoly { n: self.n, evaluations: out }
    }

    /// Adds two polynomials value by value, as far as both tables go.
    pub fn add(&self, other: &DenseMLPoly) -> (r: DenseMLPoly)
        requires
            self.n == other.n,
        ensures
            r.n == self.n,
            r.table() =~= Seq::new(
                if self.evaluations@.len() < other.evaluations@.len() {
                    self.evaluations@.len()
                } else {
                    other.evaluations@.len()
                },
                |i: int| (self.evaluations@[i]@ + other.evaluations@[i]@) % modulus(),
            ),
    {
        let len = if self.evaluations.len() < other.evaluations.len() {
            self.evaluations.len()
        } else {
            other.evaluations.len()
        };
        let mut out: Vec<Fr> = Vec::with_capacity(len);
        let mut i: usize = 0;
        while i < len
            invariant
                i <= len,
                len <= self.evaluations@.len(),
                len <= other.evaluations@.len(),
                out@.len() == i,
                forall|j: int|
                    0 <= j < i ==> (#[trigger] out@[j])@ == (self.evaluations@[j]@
                        + other.evaluations@[j]@) % modulus(),
            decreases len - i,
        {
            out.push(self.evaluations[i].add(other.evaluations[i]));
            i += 1;
        }
        DenseMLPoly { n: self.n, evaluations: out }
    }

    /// Adds a scalar to every value.
    pub fn add_by_scalar(&self, scalar: Fr) -> (r: DenseMLPoly)
        ensures
            r.n == self.n,
            r.table() =~= Seq::new(
                self.evaluations@.len(),
                |i: int| (self.evaluations@[i]@ + scalar@) % modulus(),
            ),
    {
        let mut out: Vec<Fr> = Vec::with_capacity(self.evaluations.len());
        let mut i: usize = 0;
        while i < self.evaluations.len()
            invariant
                i <= self.evaluations@.len(),
                out@.len() == i,
                forall|j: int|
                    0 <= j < i ==> (#[trigger] out@[j])@ == (self.evaluations@[j]@ + scalar@)
                        % modulus(),
            decreases self.evaluations.len() - i,
        {
            out.push(self.evaluations[i].add(scalar));
            i += 1;
        }
        DenseMLPoly { n: self.n, evaluations: out }
    }

    /// Gives the polynomial more variables by zeros at the end of its table.
    pub fn extend_number_of_variables(self, num_variables: usize) -> (r: DenseMLPoly)
        requires
            self.n <= num_variables,
            self.n < num_variables ==> num_variables < usize::BITS && self.evaluations@.len()
                <= pow2(num_variables as nat),
        ensures
            r.n == num_variables,
            self.n == num_variables ==> r.evaluations@ == self.evaluations@,
            self.n < num_variables ==> r.table() =~= zero_extended(
                self.table(),
                num_variables as nat,
            ),
    {
        if self.n == num_variables {
            return self;
        }
        let new_len = two_to(num_variables);
        let zero = Fr::zero();
        let ghost table = self.table();
        let mut evaluations = self.evaluations;
        while evaluations.len() < new_len
            invariant
                evaluations@.len() <= new_len,
                new_len == pow2(num_variables as nat),
                table.len() <= evaluations@.len(),
                zero@ == 0,
                forall|i: int|
                    0 <= i < evaluations@.len() ==> (#[trigger] evaluations@[i])@ == (if i
                        < table.len() {
                        table[i]
                    } else {
                        0
                    }),
            decreases new_len - evaluations@.len(),
        {
            evaluations.push(zero);
        }
        DenseMLPoly { n: num_variables, evaluations }
    }

    /// The `n` consecutive values from `n * index` on.
    pub fn get_partial_evaluation_for_boolean_input(&self, index: usize, n: usize) -> (r: &[Fr])
        requires
            n * index + n <= self.evaluations@.len(),
        ensures
            r@ == self.evaluations@.subrange(n * index, n * index + n),
    {
        proof {
            assert(n * index >= 0) by (nonlinear_arith);
            assert(self.evaluations.len() == self.evaluations@.len());
        }
        let start = n * index;
        let end = start + n;
        vstd::slice::slice_subrange(self.evaluations.as_slice(), start, end)
    }

    /// Fixes the first variables, as `fix_variables` does.
    pub fn partial_evaluation(&self, fixed_vars: &[Fr]) -> (r: DenseMLPoly)
        requires
            self.covers(),
            fixed_vars@.len() <= self.n,
        ensures
            r.well_formed(),
            r.n == self.n - fixed_vars@.len(),
            forall|b: int|
                0 <= b < pow2(r.n as nat) ==> #[trigger] r.evaluations@[b]@ == mle(
                    self.table(),
                    vals(fixed_vars@) + bits(b, r.n as nat),
                ) % modulus(),
    {
        self.fix_variables(fixed_vars)
    }

    /// The polynomial's value at a point.
    pub fn evaluate_at_point(&self, point: &[Fr]) -> (r: Fr)
        requires
            self.well_formed(),
            point@.len() == self.n,
        ensures
            r@ == mle(self.table(), vals(point@)) % modulus(),
    {
        evaluate_multilinear_extension(self.evaluations.as_slice(), point)
    }

    /// The number of variables.
    pub fn n(&self) -> (r: usize)
        ensures
            r == self.n,
    {
        self.n
    }

    /// A copy of the table.
    pub fn evaluations(&self) -> (r: Vec<Fr>)
        ensures
            r@ == self.evaluations@,
    {
        Fr::copy_of(self.evaluations.as_slice())
    }

    /// The value at one boolean point.
    pub fn index(&self, index: usize) -> (r: Fr)
        requires
            index < self.evaluations@.len(),
        ensures
            r == self.evaluations@[index as int],
    {
        self.evaluations[index]
    }

    /// The value at one boolean point, for change.
    pub fn index_mut(&mut self, index: usize) -> (r: &mut Fr)
        requires
            index < old(self).evaluations@.len(),
        ensures
            *r == old(self).evaluations@[index as int],
            final(self).n == old(self).n,
            final(self).evaluations@ == old(self).evaluations@.update(index as int, *final(r)),
    {
        &mut self.evaluations[index]
    }
}

/// Adds two polynomials over as many variables as the larger one has; the smaller one does not
/// depend on the variables that it lacks, which are those of the highest index bits.
pub fn add_broadcast(a: &DenseMLPoly, b: &DenseMLPoly) -> (r: DenseMLPoly)
    requires
        a.covers(),
        b.covers(),
    ensures
        r.n == (if a.n < b.n {
            b.n
        } else {
            a.n
        }),
        r.table() =~= Seq::new(
            pow2(r.n as nat),
            |i: int|
                (a.evaluations@[i % pow2(a.n as nat) as int]@ + b.evaluations@[i % pow2(
                    b.n as nat,
                ) as int]@) % modulus(),
        ),
{
    let n_out = if a.n < b.n {
        b.n
    } else {
        a.n
    };
    proof {
        lemma_shift_fits(a.evaluations.len() as nat, a.n as nat);
        lemma_shift_fits(b.evaluations.len() as nat, b.n as nat);
    }
    let out_len = two_to(n_out);
    let size_a = two_to(a.n);
    let size_b = two_to(b.n);
    let mut out: Vec<Fr> = Vec::with_capacity(out_len);
    let mut i: usize = 0;
    while i < out_len
        invariant
            i <= out_len,
            size_a == pow2(a.n as nat),
            size_b == pow2(b.n as nat),
            size_a > 0,
            size_b > 0,
            a.covers(),
            b.covers(),
            out@.len() == i,
            forall|j: int|
                0 <= j < i ==> (#[trigger] out@[j])@ == (a.evaluations@[j % pow2(
                    a.n as nat,
                ) as int]@ + b.evaluations@[j % pow2(b.n as nat) as int]@) % modulus(),
        decreases out_len - i,
    {
        let ia = i % size_a;
        let ib = i % size_b;
        out.push(a.evaluations[ia].add(b.evaluations[ib]));
        i += 1;
    }
    DenseMLPoly { n: n_out, evaluations: out }
}

/// Zeros in front of the elements, up to the given length.
pub fn pad_at_start(input: &[Fr], len: usize) -> (r: Vec<Fr>)
    ensures
        input@.len() >= len ==> r@ == input@,
        input@.len() < len ==> r@.len() == len && vals(r@) =~= Seq::new(
            (len - input@.len()) as nat,
            |i: int| 0int,
        ) + vals(input@),
{
    if input.len() >= len {
        return Fr::copy_of(input);
    }
    let mut r = Fr::repeat(Fr::zero(), len - input.len());
    let ghost zeros = r@;
    let mut i: usize = 0;
    while i < input.len()
        invariant
            i <= input@.len(),
            r@ == zeros + input@.take(i as int),
        decreases input.len() - i,
    {
        r.push(input[i]);
        i += 1;
    }
    assert(input@.take(input@.len() as int) =~= input@);
    r
}

/// The polynomial whose value at index `i` is `i` as a word of 32 bits.
pub fn range_dense(num_vars: usize) -> (r: DenseMLPoly)
    requires
        num_vars < usize::BITS,
    ensures
        r.n == num_vars,
        r.table() =~= Seq::new(pow2(num_vars as nat), |i: int| i % 0x1_0000_0000),
{
    let len = two_to(num_vars);
    let mut evaluations: Vec<Fr> = Vec::with_capacity(len);
    let mut i: usize = 0;
    while i < len
        invariant
            i <= len,
            evaluations@.len() == i,
            forall|j: int| 0 <= j < i ==> (#[trigger] evaluations@[j])@ == j % 0x1_0000_0000,
        decreases len - i,
    {
        evaluations.push(Fr::from_u64(i as u64 % 0x1_0000_0000));
        i += 1;
    }
    DenseMLPoly { n: num_vars, evaluations }
}

/// The polynomial in four variables whose value at index `i` is `2^(15 - i)`.
pub fn two_pow_dense(num_vars: usize) -> (r: DenseMLPoly)
    requires
        num_vars == 4,
    ensures
        r.n == 4,
        r.table() =~= Seq::new(16, |i: int| pow2((15 - i) as nat) as int),
{
    let mut evaluations: Vec<Fr> = Vec::with_capacity(16);
    let mut i: usize = 0;
    while i < 16
        invariant
            i <= 16,
            evaluations@.len() == i,
            forall|j: int|
                0 <= j < i ==> (#[trigger] evaluations@[j])@ == pow2((15 - j) as nat) as int,
        decreases 16 - i,
    {
        evaluations.push(Fr::from_u64(two_to(15 - i) as u64));
        i += 1;
    }
    DenseMLPoly { n: num_vars, evaluations }
}

/// The weights that the point `r` gives the `2^r.len()` table entries.
pub fn evaluate_lagrange_basis(r: &[Fr]) -> (a: Vec<Fr>)
    requires
        r@.len() < usize::BITS,
    ensures
        a@.len() == pow2(r@.len()),
        forall|i: int|
            0 <= i < a@.len() ==> (#[trigger] a@[i])@ == eq_weight(vals(r@), i) % modulus(),
{
    let log_m = r.len();
    let ghost point = vals(r@);
    let final_size = two_to(log_m);
    let mut a = Fr::repeat(Fr::zero(), final_size);
    a.set(0, Fr::one());
    proof {
        lemma_pow2_small();
        assert(point.take(0) =~= Seq::<int>::empty());
        assert forall|x: int| 0 <= x < pow2(0) implies cong(
            (#[trigger] a@[x])@,
            eq_weight(point.take(0), x),
        ) by {
            assert(x == 0);
            assert(eq_weight(point.take(0), 0) == 1);
        }
    }
    let mut i: usize = 0;
    while i < log_m
        invariant
            i <= log_m,
            log_m == r@.len(),
            log_m < usize::BITS,
            point == vals(r@),
            a.len() == pow2(log_m as nat),
            forall|x: int|
                0 <= x < pow2(i as nat) ==> cong(
                    (#[trigger] a@[x])@,
                    eq_weight(point.take(i as int), x),
                ),
        decreases log_m - i,
    {
        let r_i = r[i];
        let size = two_to(i);
        let ghost z = point.take(i as int);
        proof {
            lemma_pow2_step(i as nat);
            lemma_pow2_mono((i + 1) as nat, log_m as nat);
            assert(point.take(i + 1) =~= z.push(r_i@));
        }
        let ghost before = a@;
        let mut x: usize = 0;
        while x < size
            invariant
                x <= size,
                size == pow2(i as nat),
                z.len() == i,
                a.len() == before.len(),
                2 * size <= a.len(),
                forall|y: int| 0 <= y < size ==> cong((#[trigger] before[y])@, eq_weight(z, y)),
                forall|y: int|
                    0 <= y < x ==> cong((#[trigger] a@[y])@, eq_weight(z.push(r_i@), y)),
                forall|y: int|
                    size <= y < size + x ==> cong(
                        (#[trigger] a@[y])@,
                        eq_weight(z.push(r_i@), y),
                    ),
                forall|y: int| x <= y < size ==> #[trigger] a@[y] == before[y],
            decreases size - x,
        {
            let a_x = a[x];
            let high = r_i.mul(a_x);
            let low = a_x.sub(high);
            proof {
                let e = eq_weight(z, x as int);
                lemma_eq_push(z, r_i@, x as int);
                assert(cong(before[x as int]@, e));
                lemma_cong_mul(r_i@, r_i@, a_x@, e);
                lemma_reduced(r_i@ * a_x@);
                assert(r_i@ * e == e * r_i@) by (nonlinear_arith);
                assert(cong(high@, e * r_i@));
                lemma_cong_sub(a_x@, e, high@, e * r_i@);
                lemma_reduced(a_x@ - high@);
                assert(e - e * r_i@ == e * (1 - r_i@)) by (nonlinear_arith);
            }
            a.set(x + size, high);
            a.set(x, low);
            x += 1;
        }
        i += 1;
    }
    proof {
        assert(point.take(log_m as int) =~= point);
        assert forall|x: int| 0 <= x < a@.len() implies (#[trigger] a@[x])@ == eq_weight(point, x)
            % modulus() by {
            lemma_fr_range(a@[x]);
        }
    }
    a
}

/// The weights of the table entries at the point `g`, as `evaluate_lagrange_basis` gives them.
pub fn precompute_eq(g: &[Fr]) -> (a: Vec<Fr>)
    requires
        g@.len() < usize::BITS,
    ensures
        a@.len() == pow2(g@.len()),
        forall|i: int|
            0 <= i < a@.len() ==> (#[trigger] a@[i])@ == eq_weight(vals(g@), i) % modulus(),
{
    evaluate_lagrange_basis(g)
}

/// The multilinear extension of the vector `u` at the point `r`.
pub fn evaluate_multilinear_extension(u: &[Fr], r: &[Fr]) -> (result: Fr)
    requires
        u@.len() == pow2(r@.len()),
    ensures
        result@ == mle(vals(u@), vals(r@)) % modulus(),
{
    let m = u.len();
    proof {
        lemma_shift_fits(m as nat, r@.len());
    }
    let lagrange_basis = evaluate_lagrange_basis(r);
    let mut result = Fr::zero();
    let ghost f = |i: int| vals(u@)[i] * eq_weight(vals(r@), i);
    let mut i: usize = 0;
    while i < m
        invariant
            i <= m,
            m == u@.len(),
            m == lagrange_basis@.len(),
            forall|i: int|
                0 <= i < m ==> (#[trigger] lagrange_basis@[i])@ == eq_weight(vals(r@), i)
                    % modulus(),
            f == (|i: int| vals(u@)[i] * eq_weight(vals(r@), i)),
            cong(result@, sum_to(f, i as int)),
        decreases m - i,
    {
        let basis = lagrange_basis[i];
        let t = u[i].mul(basis);
        let next = result.add(t);
        proof {
            let e = eq_weight(vals(r@), i as int);
            lemma_reduced(e);
            lemma_reduced(u@[i as int]@ * basis@);
            lemma_cong_mul(u@[i as int]@, u@[i as int]@, basis@, e);
            lemma_reduced(result@ + t@);
            lemma_cong_add(result@, sum_to(f, i as int), t@, f(i as int));
        }
        result = next;
        i += 1;
    }
    proof {
        lemma_fr_range(result);
    }
    result
}

/// The table with entries beyond its end taken as zero.
pub open spec fn zero_extended(table: Seq<int>, n: nat) -> Seq<int> {
    Seq::new(
        pow2(n),
        |i: int|
            if i < table.len() {
                table[i]
            } else {
                0
            },
    )
}

/// Fixes the last variables, those of the highest index bits, to the given values.
pub fn fix_variables_from_right(poly: &DenseMLPoly, fixed_vars: &[Fr]) -> (r: DenseMLPoly)
    requires
        fixed_vars@.len() <= poly.n,
        fixed_vars@.len() > 0 ==> poly.n < usize::BITS,
    ensures
        r.n == poly.n - fixed_vars@.len(),
        fixed_vars@.len() == 0 ==> r.evaluations@ == poly.evaluations@,
        fixed_vars@.len() > 0 ==> r.well_formed() && forall|b: int|
            0 <= b < pow2(r.n as nat) ==> #[trigger] r.evaluations@[b]@ == mle(
                zero_extended(poly.table(), poly.n as nat),
                bits(b, r.n as nat) + vals(fixed_vars@),
            ) % modulus(),
{
    if fixed_vars.len() == 0 {
        return poly.clone();
    }
    let dim = fixed_vars.len();
    let remaining_vars = poly.n - dim;
    let eq_evals = precompute_eq(fixed_vars);
    let low_size = two_to(remaining_vars);
    let high_size = two_to(dim);
    let ghost table = zero_extended(poly.table(), poly.n as nat);
    let ghost point = vals(fixed_vars@);
    let ghost k = remaining_vars as nat;
    let mut out: Vec<Fr> = Vec::with_capacity(low_size);
    let mut low: usize = 0;
    proof {
        vstd::arithmetic::power2::lemma_pow2_adds(k, dim as nat);
        vstd::bits::lemma_usize_pow2_no_overflow(poly.n as nat);
    }
    while low < low_size
        invariant
            low <= low_size,
            low_size == pow2(k),
            high_size == pow2(dim as nat),
            low_size * high_size == pow2(poly.n as nat),
            low_size * high_size <= usize::MAX,
            k + dim == poly.n,
            dim == fixed_vars@.len(),
            point == vals(fixed_vars@),
            table == zero_extended(poly.table(), poly.n as nat),
            eq_evals@.len() == high_size,
            forall|i: int|
                0 <= i < high_size ==> (#[trigger] eq_evals@[i])@ == eq_weight(point, i)
                    % modulus(),
            out.len() == low,
            forall|b: int|
                0 <= b < low ==> (#[trigger] out@[b])@ == mle(table, bits(b, k) + point)
                    % modulus(),
        decreases low_size - low,
    {
        let mut acc = Fr::zero();
        let ghost f = |h: int| eq_weight(point, h) * table[h * pow2(k) + low];
        let mut high: usize = 0;
        while high < high_size
            invariant
                high <= high_size,
                low < low_size,
                low_size == pow2(k),
                high_size == pow2(dim as nat),
                low_size * high_size == pow2(poly.n as nat),
                low_size * high_size <= usize::MAX,
                table == zero_extended(poly.table(), poly.n as nat),
                eq_evals@.len() == high_size,
                forall|i: int|
                    0 <= i < high_size ==> (#[trigger] eq_evals@[i])@ == eq_weight(point, i)
                        % modulus(),
                f == (|h: int| eq_weight(point, h) * table[h * pow2(k) + low]),
                cong(acc@, sum_to(f, high as int)),
            decreases high_size - high,
        {
            proof {
                assert(high * low_size + low_size <= low_size * high_size) by (nonlinear_arith)
                    requires
                        high + 1 <= high_size,
                ;
            }
            let idx: usize = high * low_size + low;
            if idx < poly.evaluations.len() {
                let eq_val = eq_evals[high];
                let v = poly.evaluations[idx];
                let t = eq_val.mul(v);
                let next = acc.add(t);
                proof {
                    let e = eq_weight(point, high as int);
                    lemma_reduced(e);
                    assert(table[idx as int] == v@);
                    lemma_cong_mul(eq_val@, e, v@, v@);
                    lemma_reduced(eq_val@ * v@);
                    lemma_cong_add(acc@, sum_to(f, high as int), t@, f(high as int));
                    lemma_reduced(acc@ + t@);
                }
                acc = next;
            } else {
                proof {
                    assert(table[idx as int] == 0);
                    let e = eq_weight(point, high as int);
                    assert(e * 0 == 0) by (nonlinear_arith);
                }
            }
            high += 1;
        }
        proof {
            let z = bits(low as int, k);
            lemma_bits_len(low as int, k);
            lemma_mle_concat(table, z, point);
            let g = |h: int| eq_weight(point, h) * mle(block(table, z.len(), h), z);
            assert forall|h: int| 0 <= h < high_size implies #[trigger] f(h) == g(h) by {
                lemma_mle_bits(block(table, k, h), low as int, k);
            }
            lemma_sum_ext(f, g, high_size as int);
            lemma_fr_range(acc);
        }
        out.push(acc);
        low += 1;
    }
    DenseMLPoly { n: remaining_vars, evaluations: out }
}

/// A table that a machine word can index has fewer variables than a word has bits.
pub proof fn lemma_shift_fits(len: nat, n: nat)
    requires
        pow2(n) <= len,
        len <= usize::MAX,
    ensures
        n < usize::BITS,
{
    vstd::layout::unsigned_int_max_values();
    if n >= usize::BITS {
        lemma_pow2_mono(usize::BITS as nat, n);
    }
}

} // verus!
