//! Integer arithmetic on sizes and on signed values of field elements.
use crate::field::{lemma_fr_range, lemma_modulus_bounds, limbs_value, modulus, CryptoField, Fr};
use crate::math::{
    lemma_div_mod, lemma_pow2_mono, lemma_pow2_small, lemma_pow2_step, lemma_reduced, two_to,
};
use vstd::arithmetic::power2::pow2;
use vstd::prelude::*;

verus! {

/// The least `k` with `n <= 2^k`.
pub open spec fn ceil_log(n: int) -> nat
    decreases n,
{
    if n <= 1 {
        0
    } else {
        ceil_log((n + 1) / 2) + 1
    }
}

/// `2^ceil_log(n)` is the least power of two that is not below `n`.
pub proof fn lemma_ceil_log(n: int)
    ensures
        n <= pow2(ceil_log(n)),
        n > 1 ==> ceil_log(n) > 0 && pow2((ceil_log(n) - 1) as nat) < n,
    decreases n,
{
    lemma_pow2_small();
    if n > 1 {
        let m = (n + 1) / 2;
        lemma_ceil_log(m);
        lemma_pow2_step(ceil_log(m));
        if m > 1 {
            lemma_pow2_step((ceil_log(m) - 1) as nat);
        }
    }
}

pub proof fn lemma_ceil_log_unique(n: int, k: nat)
    requires
        n <= pow2(k),
        k == 0 || pow2((k - 1) as nat) < n,
    ensures
        ceil_log(n) == k,
{
    lemma_ceil_log(n);
    let c = ceil_log(n);
    lemma_pow2_small();
    if c < k {
        lemma_pow2_mono(c, (k - 1) as nat);
    } else if k < c {
        if n > 1 {
            lemma_pow2_mono(k, (c - 1) as nat);
        }
    }
}

/// The number of bits of an index below `n`.
pub fn log2_ceil(n: usize) -> (r: usize)
    ensures
        r == ceil_log(n as int),
        r <= usize::BITS,
{
    let mut k: usize = 0;
    proof {
        lemma_pow2_small();
        vstd::layout::unsigned_int_max_values();
        lemma_ceil_log(n as int);
        if ceil_log(n as int) > usize::BITS {
            lemma_pow2_mono(usize::BITS as nat, (ceil_log(n as int) - 1) as nat);
        }
    }
    while k < usize::BITS as usize && two_to(k) < n
        invariant
            k <= usize::BITS,
            k <= ceil_log(n as int) <= usize::BITS,
            n <= pow2(usize::BITS as nat),
        decreases usize::BITS - k,
    {
        proof {
            lemma_ceil_log(n as int);
            assert(ceil_log(n as int) != k);
        }
        k += 1;
    }
    proof {
        lemma_ceil_log(n as int);
        if k < ceil_log(n as int) {
            lemma_pow2_mono(k as nat, (ceil_log(n as int) - 1) as nat);
        }
    }
    k
}

/// The number of index bits of a tensor whose dimensions are padded to powers of two.
pub open spec fn num_vars(shape: Seq<usize>) -> nat
    decreases shape.len(),
{
    if shape.len() == 0 {
        0
    } else {
        num_vars(shape.drop_last()) + ceil_log(shape.last() as int)
    }
}

/// The index bits of shapes of up to three dimensions.
pub proof fn lemma_few_dims(a: usize, b: usize, c: usize)
    ensures
        num_vars(seq![a]) == ceil_log(a as int),
        num_vars(seq![a, b]) == ceil_log(a as int) + ceil_log(b as int),
        num_vars(seq![a, b, c]) == ceil_log(a as int) + ceil_log(b as int) + ceil_log(c as int),
{
    assert(seq![a, b, c].drop_last() =~= seq![a, b]);
    assert(seq![a, b].drop_last() =~= seq![a]);
    assert(seq![a].drop_last() =~= Seq::<usize>::empty());
    assert(num_vars(Seq::<usize>::empty()) == 0);
    assert(num_vars(seq![a]) == ceil_log(a as int));
    assert(num_vars(seq![a, b]) == ceil_log(a as int) + ceil_log(b as int));
}

/// The first dimensions have no more index bits than all of them.
pub proof fn lemma_num_vars_take(shape: Seq<usize>, i: int)
    requires
        0 <= i <= shape.len(),
    ensures
        num_vars(shape.take(i)) <= num_vars(shape),
        i < shape.len() ==> num_vars(shape.take(i + 1)) == num_vars(shape.take(i)) + ceil_log(
            shape[i] as int,
        ),
        num_vars(shape.take(shape.len() as int)) == num_vars(shape),
    decreases shape.len() - i,
{
    assert(shape.take(shape.len() as int) =~= shape);
    if i < shape.len() {
        lemma_num_vars_take(shape, i + 1);
        assert(shape.take(i + 1).drop_last() =~= shape.take(i));
    }
}

/// The number of variables of the polynomial of a tensor.
pub fn get_n(shape: &[usize]) -> (r: usize)
    requires
        num_vars(shape@) <= usize::MAX,
    ensures
        r == num_vars(shape@),
{
    let mut n: usize = 0;
    let mut i: usize = 0;
    assert(shape@.take(0) =~= Seq::<usize>::empty());
    while i < shape.len()
        invariant
            i <= shape@.len(),
            n == num_vars(shape@.take(i as int)),
            num_vars(shape@) <= usize::MAX,
        decreases shape.len() - i,
    {
        proof {
            lemma_num_vars_take(shape@, i as int);
            lemma_num_vars_take(shape@, i + 1);
        }
        n = n + log2_ceil(shape[i]);
        i += 1;
    }
    assert(shape@.take(i as int) =~= shape@);
    n
}

/// The representative of least absolute value.
pub open spec fn signed(v: int) -> int {
    if 2 * v < modulus() {
        v
    } else {
        v - modulus()
    }
}

/// A field element that stands for a signed integer of 127 bits.
pub open spec fn is_small(v: int) -> bool {
    -0x8000_0000_0000_0000_0000_0000_0000_0000 < signed(v)
        < 0x8000_0000_0000_0000_0000_0000_0000_0000
}

/// The integer of a small non-negative element.
fn low_part(x: &Fr) -> (r: Option<i128>)
    ensures
        r is Some <==> x@ < 0x8000_0000_0000_0000_0000_0000_0000_0000,
        r is Some ==> r->0 == x@,
{
    let l = x.limbs();
    proof {
        assert(limbs_value(l) == x@);
        let hi = l@[2] + 0x1_0000_0000_0000_0000 * l@[3];
        assert(x@ == l@[0] + 0x1_0000_0000_0000_0000 * l@[1]
            + 0x1_0000_0000_0000_0000_0000_0000_0000_0000 * hi);
    }
    if l[3] != 0 || l[2] != 0 || l[1] >= 0x8000_0000_0000_0000 {
        None
    } else {
        Some(l[0] as i128 + 0x1_0000_0000_0000_0000i128 * l[1] as i128)
    }
}

/// The signed integer that a field element stands for.
pub fn f_to_int(x: Fr) -> (r: i128)
    requires
        is_small(x@),
    ensures
        r == signed(x@),
{
    proof {
        lemma_fr_range(x);
        lemma_modulus_bounds();
    }
    match low_part(&x) {
        Some(v) => {
            proof {
                reveal(modulus);
            }
            v
        },
        None => {
            let negated = Fr::zero().sub(x);
            proof {
                assert(2 * x@ >= modulus());
                vstd::arithmetic::div_mod::lemma_small_mod(
                    (modulus() - x@) as nat,
                    modulus() as nat,
                );
                vstd::arithmetic::div_mod::lemma_mod_add_multiples_vanish(-x@, modulus());
                assert((modulus() - x@) % modulus() == (0 - x@) % modulus());
                assert(negated@ == modulus() - x@);
            }
            -low_part(&negated).unwrap()
        },
    }
}

/// A small integer is read back from the field element it gives.
pub proof fn lemma_signed(n: int)
    requires
        -0x8000_0000_0000_0000_0000_0000_0000_0000 < n < 0x8000_0000_0000_0000_0000_0000_0000_0000,
    ensures
        signed(n % modulus()) == n,
        is_small(n % modulus()),
{
    reveal(modulus);
    if n >= 0 {
        vstd::arithmetic::div_mod::lemma_small_mod(n as nat, modulus() as nat);
    } else {
        vstd::arithmetic::div_mod::lemma_small_mod((n + modulus()) as nat, modulus() as nat);
        vstd::arithmetic::div_mod::lemma_mod_add_multiples_vanish(n, modulus());
    }
}

/// The signed integer of an element is congruent to it.
pub proof fn lemma_signed_cong(v: int)
    ensures
        crate::math::cong(signed(v), v),
{
    lemma_modulus_bounds();
    vstd::arithmetic::div_mod::lemma_mod_add_multiples_vanish(v - modulus(), modulus());
}

/// `a^n`.
pub open spec fn power(a: int, n: nat) -> int
    decreases n,
{
    if n == 0 {
        1
    } else {
        power(a, (n - 1) as nat) * a
    }
}

/// The powers of a scalar from the zeroth on.
pub fn calc_pow(alpha: Fr, n: usize) -> (r: Vec<Fr>)
    ensures
        r@.len() == n,
        forall|i: int| 0 <= i < n ==> (#[trigger] r@[i])@ == power(alpha@, i as nat) % modulus(),
{
    let mut r: Vec<Fr> = Vec::with_capacity(n);
    let mut last = Fr::one();
    let mut i: usize = 0;
    proof {
        lemma_modulus_bounds();
        vstd::arithmetic::div_mod::lemma_small_mod(1, modulus() as nat);
    }
    while i < n
        invariant
            i <= n,
            r@.len() == i,
            last@ == power(alpha@, i as nat) % modulus(),
            forall|j: int|
                0 <= j < i ==> (#[trigger] r@[j])@ == power(alpha@, j as nat) % modulus(),
        decreases n - i,
    {
        r.push(last);
        proof {
            let p = power(alpha@, i as nat);
            lemma_reduced(p);
            crate::math::lemma_cong_mul(last@, p, alpha@, alpha@);
            assert(power(alpha@, (i + 1) as nat) == p * alpha@);
        }
        last = last.mul(alpha);
        i += 1;
    }
    r
}

/// The integer nearest to `a / b`, the one farther from zero where two are equally near.
pub open spec fn nearest(a: int, b: int) -> int
    recommends
        b > 0,
{
    if a >= 0 {
        (2 * a + b) / (2 * b)
    } else {
        -((-2 * a + b) / (2 * b))
    }
}

/// The distance of the nearest multiple is at most half a step.
pub proof fn lemma_nearest(a: int, b: int)
    requires
        b > 0,
    ensures
        -b <= 2 * (a - nearest(a, b) * b) <= b,
{
    let m = if a >= 0 {
        2 * a + b
    } else {
        -2 * a + b
    };
    lemma_div_mod(m, 2 * b);
    let q = m / (2 * b);
    assert(q * (2 * b) == 2 * (q * b)) by (nonlinear_arith);
    assert((-q) * b == -(q * b)) by (nonlinear_arith);
}

/// Rounded division.
pub fn round_div(a: i128, b: i128) -> (r: i128)
    requires
        b > 0,
        -0x4000_0000_0000_0000_0000_0000_0000_0000 < 2 * a + b,
        2 * a - b < 0x4000_0000_0000_0000_0000_0000_0000_0000,
        b < 0x2000_0000_0000_0000_0000_0000_0000_0000,
    ensures
        r == nearest(a as int, b as int),
{
    if a >= 0 {
        (2 * a + b) / (2 * b)
    } else {
        let q = (-2 * a + b) / (2 * b);
        proof {
            lemma_div_mod(-2 * a + b, 2 * b as int);
            assert(q >= 0) by (nonlinear_arith)
                requires
                    q == (-2 * a + b) / (2 * b as int),
                    a < 0,
                    b > 0,
            ;
        }
        -q
    }
}

/// `ln 2` to 53 bits: `LN2 / 2^53`.
pub const LN2: u64 = 6243314768165359;

/// `ln 2` to 24 bits: `LN2_SINGLE / 2^24`.
pub const LN2_SINGLE: u64 = 11629080;

/// `ln 2` at the scale `2^sf`, rounded to an integer.
pub open spec fn ln2_at(sf: nat) -> int {
    (LN2 * pow2(sf) + 0x10_0000_0000_0000) / 0x20_0000_0000_0000
}

/// The rounded `ln 2` is positive.
pub proof fn lemma_ln2_positive(sf: nat)
    ensures
        ln2_at(sf) > 0,
{
    lemma_pow2_mono(0, sf);
    vstd::arithmetic::power2::lemma2_to64();
    let q = pow2(sf) as int;
    assert(LN2 * q >= LN2) by (nonlinear_arith)
        requires
            q >= 1,
    ;
}

/// `ln 2` in single precision at the scale `2^sf`, rounded to an integer.
pub open spec fn ln2_single_at(sf: nat) -> int {
    (LN2_SINGLE * pow2(sf) + 0x80_0000) / 0x100_0000
}

/// `ln 2` at the scale `2^sf`, rounded to an integer.
pub fn scaled_ln2(sf: usize) -> (r: u64)
    requires
        sf < 64,
    ensures
        r == ln2_at(sf as nat),
        r < 0x8000_0000_0000_0000,
        sf > 0 ==> r > 0,
        r as int <= pow2(sf as nat),
{
    let p = power_of_two(sf);
    proof {
        vstd::arithmetic::power2::lemma2_to64();
        vstd::arithmetic::power2::lemma2_to64_rest();
        lemma_pow2_mono(sf as nat, 63);
        if sf > 0 {
            lemma_pow2_mono(1, sf as nat);
        }
        let q = pow2(sf as nat) as int;
        assert(LN2 * q <= LN2 * 0x8000_0000_0000_0000) by (nonlinear_arith)
            requires
                q <= 0x8000_0000_0000_0000,
        ;
        assert(LN2 * q >= 2 * LN2 || sf == 0) by (nonlinear_arith)
            requires
                q >= 2 || sf == 0,
        ;
        assert(LN2 * q + 0x10_0000_0000_0000 < (q + 1) * 0x20_0000_0000_0000) by (nonlinear_arith)
            requires
                q >= 1,
                LN2 < 0x20_0000_0000_0000,
        ;
        lemma_pow2_mono(0, sf as nat);
    }
    ((LN2 as u128 * p as u128 + 0x10_0000_0000_0000u128) / 0x20_0000_0000_0000u128) as u64
}

/// `ln 2` in single precision at the scale `2^sf`, rounded to an integer.
pub fn scaled_ln2_single(sf: usize) -> (r: u64)
    requires
        sf < 64,
    ensures
        r == ln2_single_at(sf as nat),
        r < 0x8000_0000_0000_0000,
        sf > 0 ==> r > 0,
{
    let p = power_of_two(sf);
    proof {
        vstd::arithmetic::power2::lemma2_to64();
        vstd::arithmetic::power2::lemma2_to64_rest();
        lemma_pow2_mono(sf as nat, 63);
        if sf > 0 {
            lemma_pow2_mono(1, sf as nat);
        }
        let q = pow2(sf as nat) as int;
        assert(LN2_SINGLE * q <= LN2_SINGLE * 0x8000_0000_0000_0000) by (nonlinear_arith)
            requires
                q <= 0x8000_0000_0000_0000,
        ;
        assert(LN2_SINGLE * q >= 2 * LN2_SINGLE || sf == 0) by (nonlinear_arith)
            requires
                q >= 2 || sf == 0,
        ;
    }
    ((LN2_SINGLE as u128 * p as u128 + 0x80_0000u128) / 0x100_0000u128) as u64
}

/// `2^k` in 64 bits.
pub fn power_of_two(k: usize) -> (r: u64)
    requires
        k < 64,
    ensures
        r == pow2(k as nat),
        r > 0,
{
    proof {
        vstd::bits::lemma_u64_pow2_no_overflow(k as nat);
        vstd::bits::lemma_u64_shl_is_mul(1, k as u64);
        vstd::arithmetic::power2::lemma_pow2_pos(k as nat);
    }
    1u64 << k
}

/// The inverses that interpolation in few points needs.
#[derive(Clone, Copy, Debug)]
pub struct CachedInverses {
    pub two_inv: Fr,
    pub six_inv: Fr,
    pub neg_ln2_inv: Fr,
    pub neg_two_inv: Fr,
    pub neg_six_inv: Fr,
}

/// The inverses of 2, of 6 and of `-ln 2` at the scale `2^sf_log`, and the first two negated.
pub fn get_cached_inverses(sf_log: usize) -> (r: CachedInverses)
    requires
        0 < sf_log < 64,
    ensures
        (2 * r.two_inv@) % modulus() == 1,
        (6 * r.six_inv@) % modulus() == 1,
        ((-ln2_single_at(sf_log as nat)) * r.neg_ln2_inv@) % modulus() == 1,
        r.neg_two_inv@ == (-r.two_inv@) % modulus(),
        r.neg_six_inv@ == (-r.six_inv@) % modulus(),
{
    let two_inv = Fr::from_u32(2).invert();
    let six_inv = Fr::from_u32(6).invert();
    let ln2 = scaled_ln2_single(sf_log);
    let neg_ln2 = Fr::from_i128(-(ln2 as i128));
    proof {
        lemma_modulus_bounds();
        lemma_signed(-(ln2 as int));
        assert(neg_ln2@ != 0) by {
            if neg_ln2@ == 0 {
                assert(signed(0) == 0);
            }
        }
    }
    let neg_ln2_inv = neg_ln2.invert();
    let zero = Fr::zero();
    proof {
        lemma_reduced(-(ln2 as int));
        crate::math::lemma_cong_mul(neg_ln2@, -(ln2 as int), neg_ln2_inv@, neg_ln2_inv@);
    }
    CachedInverses {
        two_inv,
        six_inv,
        neg_ln2_inv,
        neg_two_inv: zero.sub(two_inv),
        neg_six_inv: zero.sub(six_inv),
    }
}

} // verus!
