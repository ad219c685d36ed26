//! The constant tables of rotary position embeddings and of the causal mask.
//!
//! The sines and cosines come as numbers that are scaled and rounded already.
use crate::arith::{ceil_log, get_n, log2_ceil, num_vars};
use crate::field::{modulus, vals, CryptoField, Fr};
use crate::math::{
    lemma_cong_sub, lemma_div_mod_unique, lemma_reduced, lemma_sum_single, sum_to, two_to,
};
use crate::shape::coordinate;
use vstd::arithmetic::power2::pow2;
use vstd::prelude::*;

verus! {

/// The other number of the pair that `i` belongs to.
pub open spec fn paired(i: int) -> int {
    if i % 2 == 0 {
        i + 1
    } else {
        i - 1
    }
}

/// The table of the permutation that swaps the numbers of each pair.
pub open spec fn pair_swap(d: nat) -> Seq<int> {
    Seq::new(
        d * d,
        |p: int|
            if p / d as int == paired(p % d as int) {
                1
            } else {
                0
            },
    )
}

/// The permutation matrix that swaps the entries of each pair: entry `(i, j)` stands at
/// `i + j d`.
pub fn pair_swap_perm_matrix(d: usize) -> (r: Vec<Fr>)
    requires
        d % 2 == 0,
        d * d <= usize::MAX,
    ensures
        vals(r@) =~= pair_swap(d as nat),
{
    let size = d * d;
    let zero = Fr::zero();
    let one = Fr::one();
    let mut r: Vec<Fr> = Vec::with_capacity(size);
    let mut p: usize = 0;
    while p < size
        invariant
            p <= size,
            size == d * d,
            zero@ == 0,
            one@ == 1,
            r@.len() == p,
            forall|q: int| 0 <= q < p ==> (#[trigger] r@[q])@ == pair_swap(d as nat)[q],
        decreases size - p,
    {
        assert(d > 0) by (nonlinear_arith)
            requires
                p < d * d,
                p >= 0,
        ;
        let i = p % d;
        let j = p / d;
        let hit = if i % 2 == 0 {
            j > 0 && j - 1 == i
        } else {
            j == i - 1
        };
        if hit {
            r.push(one);
        } else {
            r.push(zero);
        }
        p += 1;
    }
    r
}

/// The product of a vector with the permutation matrix is the vector with the entries of each pair
/// swapped.
pub proof fn lemma_pair_swap(d: nat, x: spec_fn(int) -> int, j: int)
    requires
        d % 2 == 0,
        0 <= j < d,
    ensures
        0 <= paired(j) < d,
        paired(paired(j)) == j,
        sum_to(|i: int| x(i) * pair_swap(d)[i + j * d], d as int) == x(paired(j)),
{
    let f = |i: int| x(i) * pair_swap(d)[i + j * d];
    let k = paired(j);
    assert forall|i: int| 0 <= i < d implies #[trigger] f(i) == (if i == k {
        x(i)
    } else {
        0
    }) by {
        let p = i + j * d;
        assert(0 <= p < d * d) by (nonlinear_arith)
            requires
                0 <= i < d,
                0 <= j,
                j + 1 <= d,
                p == i + j * d,
        ;
        lemma_div_mod_unique(p, d as int, j, i);
        assert(pair_swap(d)[p] == if i == k {
            1int
        } else {
            0int
        });
        assert(x(i) * 1 == x(i) && x(i) * 0 == 0) by (nonlinear_arith);
    }
    lemma_sum_single(f, k, d as int);
}

/// The field element of a number.
pub open spec fn element(v: int) -> int {
    v % modulus()
}

/// Each number twice.
pub open spec fn cos_row(numbers: Seq<i64>) -> Seq<int> {
    Seq::new(2 * numbers.len(), |j: int| element(numbers[j / 2] as int))
}

/// Each number and its negation.
pub open spec fn sin_row(numbers: Seq<i64>) -> Seq<int> {
    Seq::new(
        2 * numbers.len(),
        |j: int|
            if j % 2 == 0 {
                element(numbers[j / 2] as int)
            } else {
                element(-numbers[j / 2])
            },
    )
}

/// The cosines of a position, each twice.
pub fn rope_cos_vec(cosines: &[i64]) -> (r: Vec<Fr>)
    requires
        2 * cosines@.len() <= usize::MAX,
    ensures
        vals(r@) =~= cos_row(cosines@),
{
    let mut r: Vec<Fr> = Vec::new();
    let mut i: usize = 0;
    while i < cosines.len()
        invariant
            i <= cosines@.len(),
            r@.len() == 2 * i,
            forall|j: int| 0 <= j < 2 * i ==> (#[trigger] r@[j])@ == cos_row(cosines@)[j],
        decreases cosines.len() - i,
    {
        let c = Fr::from_i128(cosines[i] as i128);
        r.push(c);
        r.push(c);
        i += 1;
    }
    r
}

/// The sines of a position, each followed by its negation.
pub fn rope_sin_vec(sines: &[i64]) -> (r: Vec<Fr>)
    requires
        2 * sines@.len() <= usize::MAX,
    ensures
        vals(r@) =~= sin_row(sines@),
{
    let mut r: Vec<Fr> = Vec::new();
    let mut i: usize = 0;
    while i < sines.len()
        invariant
            i <= sines@.len(),
            r@.len() == 2 * i,
            forall|j: int| 0 <= j < 2 * i ==> (#[trigger] r@[j])@ == sin_row(sines@)[j],
        decreases sines.len() - i,
    {
        r.push(Fr::from_i128(sines[i] as i128));
        r.push(Fr::from_i128(-(sines[i] as i128)));
        i += 1;
    }
    r
}

/// The entry of a table of numbers by position and pair: that of pair `i` and position `m` stands
/// at `i seq_len + m`.
pub open spec fn rotation_entry(
    seq_len: nat,
    numbers: Seq<i64>,
    alternating: bool,
    p: int,
) -> int {
    let padded = pow2(ceil_log(seq_len as int)) as int;
    let (m, j) = (p % padded, p / padded);
    let v = numbers[(j / 2) * seq_len + m] as int;
    if m >= seq_len {
        0
    } else if alternating && j % 2 == 1 {
        element(-v)
    } else {
        element(v)
    }
}

/// The numbers of all positions, those of each pair in two columns; in the second one negated if
/// `alternating` is set. Entry `(m, j)` stands at `m + j padded`, where `padded` is the number of
/// positions padded to a power of two.
pub open spec fn rotation_table(
    d: nat,
    seq_len: nat,
    numbers: Seq<i64>,
    alternating: bool,
) -> Seq<int> {
    Seq::new(
        pow2(ceil_log(seq_len as int)) * d,
        |p: int| rotation_entry(seq_len, numbers, alternating, p),
    )
}

/// The numbers of a rotation table fit their places.
pub open spec fn rotation_fits(d: nat, seq_len: nat, numbers: Seq<i64>) -> bool {
    &&& d % 2 == 0
    &&& numbers.len() == (d / 2) * seq_len
    &&& ceil_log(seq_len as int) < usize::BITS
    &&& pow2(ceil_log(seq_len as int)) * d <= usize::MAX
}

fn rotation(d: usize, seq_len: usize, numbers: &[i64], alternating: bool) -> (r: Vec<Fr>)
    requires
        rotation_fits(d as nat, seq_len as nat, numbers@),
    ensures
        vals(r@) =~= rotation_table(d as nat, seq_len as nat, numbers@, alternating),
{
    let padded = two_to(log2_ceil(seq_len));
    let size = padded * d;
    let zero = Fr::zero();
    let mut r: Vec<Fr> = Vec::with_capacity(size);
    let mut p: usize = 0;
    while p < size
        invariant
            p <= size,
            size == padded * d,
            padded == pow2(ceil_log(seq_len as int)),
            padded > 0,
            d % 2 == 0,
            numbers@.len() == (d as nat / 2) * seq_len as nat,
            zero@ == 0,
            r@.len() == p,
            forall|q: int|
                0 <= q < p ==> (#[trigger] r@[q])@ == rotation_entry(
                    seq_len as nat,
                    numbers@,
                    alternating,
                    q,
                ),
        decreases size - p,
    {
        let m = p % padded;
        let j = p / padded;
        if m < seq_len {
            let half = j / 2;
            proof {
                assert(j < d) by (nonlinear_arith)
                    requires
                        j == p as int / padded as int,
                        p < padded * d,
                        padded > 0,
                ;
                let h = d as int / 2;
                let s = seq_len as int;
                let i = half as int;
                assert(i + 1 <= h);
                assert(i * s + m < h * s && i * s >= 0) by (nonlinear_arith)
                    requires
                        0 <= i,
                        i + 1 <= h,
                        0 <= m < s,
                ;
                assert(numbers.len() == numbers@.len());
            }
            let v = numbers[half * seq_len + m];
            if alternating && j % 2 == 1 {
                r.push(Fr::from_i128(-(v as i128)));
            } else {
                r.push(Fr::from_i128(v as i128));
            }
        } else {
            r.push(zero);
        }
        p += 1;
    }
    r
}

/// The cosines of all positions, those of each pair in two columns. The cosine of pair `i` at
/// position `m` stands at `i seq_len + m` of the argument.
pub fn rope_cos_mat(d: usize, seq_len: usize, cosines: &[i64]) -> (r: Vec<Fr>)
    requires
        rotation_fits(d as nat, seq_len as nat, cosines@),
    ensures
        vals(r@) == rotation_table(d as nat, seq_len as nat, cosines@, false),
{
    rotation(d, seq_len, cosines, false)
}

/// The sines of all positions, those of each pair in two columns, in the second one negated. The
/// sine of pair `i` at position `m` stands at `i seq_len + m` of the argument.
pub fn rope_sin_mat(d: usize, seq_len: usize, sines: &[i64]) -> (r: Vec<Fr>)
    requires
        rotation_fits(d as nat, seq_len as nat, sines@),
    ensures
        vals(r@) == rotation_table(d as nat, seq_len as nat, sines@, true),
{
    rotation(d, seq_len, sines, true)
}

/// The numbers of one position: that of pair `i` and position `m` stands at `i seq_len + m`.
pub open spec fn position_numbers(d: nat, seq_len: nat, numbers: Seq<i64>, m: int) -> Seq<i64> {
    Seq::new(d / 2, |i: int| numbers[i * seq_len + m])
}

/// The tables of all positions hold the rows of the single positions: entry `(m, j)` of a table is
/// entry `j` of the row of position `m`, and the entries of the positions after the last one are
/// zero.
pub proof fn lemma_rotation_rows(d: nat, seq_len: nat, numbers: Seq<i64>, m: int, j: int)
    requires
        rotation_fits(d, seq_len, numbers),
        0 <= m < pow2(ceil_log(seq_len as int)),
        0 <= j < d,
    ensures
        ({
            let padded = pow2(ceil_log(seq_len as int)) as int;
            let row = position_numbers(d, seq_len, numbers, m);
            let cosine = rotation_table(d, seq_len, numbers, false)[m + j * padded];
            let sine = rotation_table(d, seq_len, numbers, true)[m + j * padded];
            &&& row.len() == d / 2
            &&& m < seq_len ==> cosine == cos_row(row)[j] && sine == sin_row(row)[j]
            &&& m >= seq_len ==> cosine == 0 && sine == 0
        }),
{
    let padded = pow2(ceil_log(seq_len as int)) as int;
    let p = m + j * padded;
    lemma_div_mod_unique(p, padded, j, m);
    assert(0 <= p < padded * d) by (nonlinear_arith)
        requires
            0 <= m < padded,
            0 <= j,
            j + 1 <= d,
            p == m + j * padded,
    ;
}

/// The two columns of a pair hold the same cosines, and sines that are the negations of each other.
pub proof fn lemma_rotation_pairs(d: nat, seq_len: nat, numbers: Seq<i64>, m: int, i: int)
    requires
        rotation_fits(d, seq_len, numbers),
        0 <= m < pow2(ceil_log(seq_len as int)),
        0 <= 2 * i < d,
    ensures
        ({
            let padded = pow2(ceil_log(seq_len as int)) as int;
            let cosines = rotation_table(d, seq_len, numbers, false);
            let sines = rotation_table(d, seq_len, numbers, true);
            let (first, second) = (m + 2 * i * padded, m + (2 * i + 1) * padded);
            &&& cosines[second] == cosines[first]
            &&& sines[second] == (-sines[first]) % modulus()
        }),
{
    lemma_rotation_rows(d, seq_len, numbers, m, 2 * i);
    lemma_rotation_rows(d, seq_len, numbers, m, 2 * i + 1);
    let v = position_numbers(d, seq_len, numbers, m)[i] as int;
    lemma_reduced(v);
    lemma_cong_sub(0, 0, v % modulus(), v);
    lemma_reduced(0);
    reveal(modulus);
}

/// Of the last two dimensions of a shape, the second is the key position and the first the query
/// position: whether the entry is for a key that comes after its query.
pub open spec fn is_future(shape: Seq<usize>, seq_len: nat, p: int) -> bool {
    let query = coordinate(shape, p, shape.len() - 2);
    let key = coordinate(shape, p, shape.len() - 1);
    query < key < seq_len
}

/// The causal mask: `-1000`, with `sf` fractional bits, for the keys that come after their query
/// and zero for the others.
pub open spec fn causal_table(shape: Seq<usize>, seq_len: nat, sf: nat) -> Seq<int> {
    Seq::new(
        pow2(num_vars(shape)),
        |p: int|
            if is_future(shape, seq_len, p) {
                (-1000 * pow2(sf)) % modulus()
            } else {
                0
            },
    )
}

/// The causal mask of a tensor of attention scores.
pub fn causal_mask_data(shape: &[usize], seq_len: usize, sf: usize) -> (r: Vec<Fr>)
    requires
        shape@.len() >= 2,
        num_vars(shape@) < usize::BITS,
        sf <= 22,
    ensures
        vals(r@) =~= causal_table(shape@, seq_len as nat, sf as nat),
{
    let ndim = shape.len();
    proof {
        crate::arith::lemma_num_vars_take(shape@, ndim - 2);
        crate::arith::lemma_num_vars_take(shape@, ndim - 1);
        assert(shape@.take(ndim as int) =~= shape@);
        crate::math::lemma_pow2_mono(sf as nat, 22);
        vstd::arithmetic::power2::lemma2_to64();
    }
    let size = two_to(get_n(shape));
    let mut query_bits: usize = 0;
    let mut i: usize = 0;
    assert(shape@.take(0) =~= Seq::<usize>::empty());
    while i < ndim - 2
        invariant
            i <= ndim - 2,
            ndim == shape@.len(),
            ndim >= 2,
            num_vars(shape@) < usize::BITS,
            query_bits == num_vars(shape@.take(i as int)),
            query_bits < usize::BITS,
        decreases ndim - i,
    {
        proof {
            crate::arith::lemma_num_vars_take(shape@, i as int);
            crate::arith::lemma_num_vars_take(shape@, i + 1);
        }
        query_bits = query_bits + log2_ceil(shape[i]);
        i += 1;
    }
    let query_step = two_to(query_bits);
    let query_log = log2_ceil(shape[ndim - 2]);
    let key_step = two_to(query_bits + query_log);
    let query_size = two_to(query_log);
    let key_size = two_to(log2_ceil(shape[ndim - 1]));
    let zero = Fr::zero();
    let big_neg = Fr::from_i128(-1000 * (crate::arith::power_of_two(sf) as i128));
    let mut r: Vec<Fr> = Vec::with_capacity(size);
    let mut p: usize = 0;
    while p < size
        invariant
            p <= size,
            size == pow2(num_vars(shape@)),
            ndim == shape@.len(),
            ndim >= 2,
            query_step == pow2(num_vars(shape@.take(ndim - 2))),
            key_step == pow2(num_vars(shape@.take(ndim - 1))),
            query_size == pow2(ceil_log(shape@[ndim - 2] as int)),
            key_size == pow2(ceil_log(shape@[ndim - 1] as int)),
            query_step > 0,
            key_step > 0,
            query_size > 0,
            key_size > 0,
            zero@ == 0,
            big_neg@ == (-1000 * pow2(sf as nat)) % modulus(),
            r@.len() == p,
            forall|q: int|
                0 <= q < p ==> (#[trigger] r@[q])@ == causal_table(
                    shape@,
                    seq_len as nat,
                    sf as nat,
                )[q],
        decreases size - p,
    {
        let query = (p / query_step) % query_size;
        let key = (p / key_step) % key_size;
        if key < seq_len && query < key {
            r.push(big_neg);
        } else {
            r.push(zero);
        }
        p += 1;
    }
    r
}

} // verus!
