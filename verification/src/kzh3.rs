//! The KZH3 polynomial commitment scheme.
//!
//! The table of a polynomial is read as a cube with the lowest index bits along `z` and the highest
//! along `x`. A commitment is one group element; an opening holds the partial commitments along
//! `x` and along `y` and the polynomial that is left in `z`.
use crate::curve::{g1_logs, g2_logs, inner, random_scalar, Gt, G1, G2};
use crate::field::{lemma_fr_range, modulus, vals, CryptoField, Fr};
use crate::math::{
    cong, lemma_cong_mul, lemma_pow2_mono, lemma_pow2_small, lemma_reduced, lemma_sum_blocks,
    lemma_sum_cong, lemma_sum_ext, lemma_sum_scale, lemma_sum_swap, sum_to, two_to,
};
use crate::mle::{
    bits, eq_weight, fixed_high, lemma_mle_cong, lemma_mle_fixed_high, lemma_mle_high_sum, mle,
};
use crate::poly::dense::{
    evaluate_lagrange_basis, fix_variables_from_right, lemma_shift_fits, zero_extended,
    DenseMLPoly,
};
use vstd::arithmetic::power2::pow2;
use vstd::prelude::*;

pub mod scheme;

verus! {

/// `n` is a power of two.
pub open spec fn is_power(n: int) -> bool {
    exists|k: nat| #[trigger] pow2(k) == n
}

/// The exponent of a power of two.
pub open spec fn log_of(n: int) -> nat {
    choose|k: nat| #[trigger] pow2(k) == n
}

pub(crate) proof fn lemma_log_of(k: nat)
    ensures
        log_of(pow2(k) as int) == k,
{
    let n = pow2(k) as int;
    let c = log_of(n);
    assert(pow2(c) == n);
    if c < k {
        vstd::arithmetic::power2::lemma_pow2_strictly_increases(c, k);
    } else if k < c {
        vstd::arithmetic::power2::lemma_pow2_strictly_increases(k, c);
    }
}

/// The exponent of a power of two.
pub fn log_2(n: usize) -> (r: usize)
    requires
        is_power(n as int),
    ensures
        r == log_of(n as int),
        pow2(r as nat) == n,
        r < usize::BITS,
{
    let ghost k = log_of(n as int);
    let mut r: usize = 0;
    proof {
        lemma_pow2_small();
        lemma_shift_fits(n as nat, k);
    }
    while two_to(r) < n
        invariant
            r <= k,
            k < usize::BITS,
            n == pow2(k),
        decreases k - r,
    {
        assert(r != k);
        r += 1;
    }
    proof {
        if r < k {
            vstd::arithmetic::power2::lemma_pow2_strictly_increases(r as nat, k);
        }
    }
    r
}

/// The public parameters of the scheme.
#[derive(Debug)]
pub struct KZH3SRS {
    pub degree_x: usize,
    pub degree_y: usize,
    pub degree_z: usize,
    pub h_xyz: Vec<G1>,
    pub h_yz: Vec<G1>,
    pub h_z: Vec<G1>,
    pub v_x: Vec<G2>,
    pub v_y: Vec<G2>,
    pub v_z: Vec<G2>,
    pub v: G2,
}

impl KZH3SRS {
    pub open spec fn x_log(&self) -> nat {
        log_of(self.degree_x as int)
    }

    pub open spec fn y_log(&self) -> nat {
        log_of(self.degree_y as int)
    }

    pub open spec fn z_log(&self) -> nat {
        log_of(self.degree_z as int)
    }

    /// The number of variables of the polynomials that the parameters are for.
    pub open spec fn total(&self) -> nat {
        self.x_log() + self.y_log() + self.z_log()
    }

    /// The degrees are powers of two and the lists have the lengths that go with them.
    pub open spec fn sized(&self) -> bool {
        &&& is_power(self.degree_x as int)
        &&& is_power(self.degree_y as int)
        &&& is_power(self.degree_z as int)
        &&& self.total() < usize::BITS
        &&& self.h_xyz@.len() == pow2(self.total())
        &&& self.h_yz@.len() == pow2(self.y_log() + self.z_log())
        &&& self.h_z@.len() == self.degree_z
        &&& self.v_x@.len() == self.degree_x
        &&& self.v_y@.len() == self.degree_y
        &&& self.v_z@.len() == self.degree_z
    }

    /// The parameters are those that the secrets `tau_x`, `tau_y` and `tau_z` give with the base
    /// points `g` and `v`.
    pub open spec fn generated(
        &self,
        g: int,
        tau_x: Seq<int>,
        tau_y: Seq<int>,
        tau_z: Seq<int>,
    ) -> bool {
        let (y, z) = (self.degree_y as int, self.degree_z as int);
        &&& tau_x.len() == self.degree_x
        &&& tau_y.len() == self.degree_y
        &&& tau_z.len() == self.degree_z
        &&& forall|i: int, j: int, k: int|
            0 <= i < self.degree_x && 0 <= j < y && 0 <= k < z ==> (#[trigger] self.h_xyz@[(i * y
                + j) * z + k]).log() == (g * (tau_x[i] * tau_y[j] * tau_z[k])) % modulus()
        &&& forall|j: int, k: int|
            0 <= j < y && 0 <= k < z ==> (#[trigger] self.h_yz@[j * z + k]).log() == (g * (tau_y[j]
                * tau_z[k])) % modulus()
        &&& forall|k: int|
            0 <= k < z ==> (#[trigger] self.h_z@[k]).log() == (g * tau_z[k]) % modulus()
        &&& forall|i: int|
            0 <= i < self.degree_x ==> (#[trigger] self.v_x@[i]).log() == (self.v.log() * tau_x[i])
                % modulus()
        &&& forall|j: int|
            0 <= j < y ==> (#[trigger] self.v_y@[j]).log() == (self.v.log() * tau_y[j]) % modulus()
        &&& forall|k: int|
            0 <= k < z ==> (#[trigger] self.v_z@[k]).log() == (self.v.log() * tau_z[k]) % modulus()
    }
}

/// Splits a number of variables into three shares that differ by at most one.
pub fn get_degree_from_maximum_supported_degree(n: usize) -> (r: (usize, usize, usize))
    ensures
        r.0 + r.1 + r.2 == n,
        r.0 >= r.1 >= r.2,
        r.0 - r.2 <= 1,
{
    let third: usize = n / 3;
    if n % 3 == 0 {
        (third, third, third)
    } else if n % 3 == 1 {
        (third + 1, third, third)
    } else {
        (third + 1, third + 1, third)
    }
}

pub fn scalar_field_zero() -> (r: Fr)
    ensures
        r@ == 0,
{
    Fr::zero()
}

/// The input with `default` put in front of it up to the length `total`.
pub open spec fn prepended<T>(input: Seq<T>, default: T, total: nat) -> Seq<T> {
    if input.len() < total {
        Seq::new((total - input.len()) as nat, |i: int| default) + input
    } else {
        input
    }
}

/// Splits a point into its coordinates along `z`, `y` and `x`. A point that is too short is filled
/// up with `default` at its start.
pub fn split_input<T: Copy>(srs: &KZH3SRS, input: &[T], default: T) -> (r: Vec<Vec<T>>)
    requires
        srs.sized(),
    ensures
        ({
            let whole = prepended(input@, default, srs.total());
            let (x, y, z) = (srs.x_log() as int, srs.y_log() as int, srs.z_log() as int);
            &&& r@.len() == 3
            &&& r@[0]@ == whole.subrange(0, z)
            &&& r@[1]@ == whole.subrange(z, z + y)
            &&& r@[2]@ == whole.subrange(z + y, z + y + x)
        }),
{
    let z_log = log_2(srs.degree_z);
    let y_log = log_2(srs.degree_y);
    let x_log = log_2(srs.degree_x);
    let total_length = x_log + y_log + z_log;
    let ghost whole = prepended(input@, default, srs.total());
    let mut extended: Vec<T> = Vec::new();
    if input.len() < total_length {
        let missing = total_length - input.len();
        let mut i: usize = 0;
        while i < missing
            invariant
                i <= missing,
                extended@ == Seq::new(i as nat, |i: int| default),
            decreases missing - i,
        {
            extended.push(default);
            i += 1;
        }
    }
    let ghost front = extended@;
    let mut i: usize = 0;
    while i < input.len()
        invariant
            i <= input@.len(),
            extended@ == front + input@.take(i as int),
        decreases input.len() - i,
    {
        extended.push(input[i]);
        i += 1;
    }
    proof {
        assert(input@.take(input@.len() as int) =~= input@);
        assert(extended@ =~= whole);
    }
    let r_z = copy_range(&extended, 0, z_log);
    let r_y = copy_range(&extended, z_log, z_log + y_log);
    let r_x = copy_range(&extended, z_log + y_log, total_length);
    let mut r: Vec<Vec<T>> = Vec::new();
    r.push(r_z);
    r.push(r_y);
    r.push(r_x);
    r
}

fn copy_range<T: Copy>(v: &Vec<T>, from: usize, to: usize) -> (r: Vec<T>)
    requires
        from <= to <= v@.len(),
    ensures
        r@ == v@.subrange(from as int, to as int),
{
    let mut r: Vec<T> = Vec::with_capacity(to - from);
    let mut i: usize = from;
    while i < to
        invariant
            from <= i <= to <= v@.len(),
            r@ == v@.subrange(from as int, i as int),
        decreases to - i,
    {
        r.push(v[i]);
        i += 1;
    }
    r
}

/// The parameters that the given base points and secrets give.
pub fn srs_from_secrets(
    g: G1,
    v: G2,
    tau_x: &Vec<Fr>,
    tau_y: &Vec<Fr>,
    tau_z: &Vec<Fr>,
) -> (srs: KZH3SRS)
    requires
        is_power(tau_x@.len() as int),
        is_power(tau_y@.len() as int),
        is_power(tau_z@.len() as int),
        log_of(tau_x@.len() as int) + log_of(tau_y@.len() as int) + log_of(tau_z@.len() as int)
            < usize::BITS,
    ensures
        srs.sized(),
        srs.degree_x == tau_x@.len(),
        srs.degree_y == tau_y@.len(),
        srs.degree_z == tau_z@.len(),
        srs.v == v,
        srs.generated(g.log(), vals(tau_x@), vals(tau_y@), vals(tau_z@)),
{
    let degree_x = tau_x.len();
    let degree_y = tau_y.len();
    let degree_z = tau_z.len();
    let ghost (tx, ty, tz) = (vals(tau_x@), vals(tau_y@), vals(tau_z@));
    let ghost (xl, yl, zl) = (
        log_of(degree_x as int),
        log_of(degree_y as int),
        log_of(degree_z as int),
    );
    let ghost (yy, zz) = (degree_y as int, degree_z as int);
    proof {
        vstd::arithmetic::power2::lemma_pow2_adds(yl, zl);
        vstd::arithmetic::power2::lemma_pow2_adds(xl, yl + zl);
        assert(pow2(xl + yl + zl) == degree_x * (yy * zz));
    }
    let mut h_yz: Vec<G1> = Vec::new();
    let mut h_z: Vec<G1> = Vec::new();
    let mut h_xyz: Vec<G1> = Vec::new();
    let mut k: usize = 0;
    while k < degree_z
        invariant
            k <= degree_z,
            degree_z == tau_z@.len(),
            tz == vals(tau_z@),
            h_z@.len() == k,
            forall|c: int|
                0 <= c < k ==> (#[trigger] h_z@[c]).log() == (g.log() * tz[c]) % modulus(),
        decreases degree_z - k,
    {
        h_z.push(g.mul(&tau_z[k]));
        k += 1;
    }
    let mut j: usize = 0;
    while j < degree_y
        invariant
            j <= degree_y,
            degree_y == tau_y@.len(),
            degree_z == tau_z@.len(),
            ty == vals(tau_y@),
            tz == vals(tau_z@),
            zz == degree_z,
            h_yz@.len() == j * zz,
            forall|b: int, c: int|
                0 <= b < j && 0 <= c < zz ==> (#[trigger] h_yz@[b * zz + c]).log() == (g.log() * (
                ty[b] * tz[c])) % modulus(),
        decreases degree_y - j,
    {
        let mut k: usize = 0;
        assert(0 <= j * zz) by (nonlinear_arith)
            requires
                j >= 0,
                zz >= 0,
        ;
        while k < degree_z
            invariant
                k <= degree_z,
                j < degree_y,
                degree_y == tau_y@.len(),
                degree_z == tau_z@.len(),
                ty == vals(tau_y@),
                tz == vals(tau_z@),
                zz == degree_z,
                0 <= j * zz,
                h_yz@.len() == j * zz + k,
                forall|b: int, c: int|
                    0 <= b < j && 0 <= c < zz ==> (#[trigger] h_yz@[b * zz + c]).log() == (g.log()
                        * (ty[b] * tz[c])) % modulus(),
                forall|c: int|
                    0 <= c < k ==> (#[trigger] h_yz@[j * zz + c]).log() == (g.log() * (ty[j as int]
                        * tz[c])) % modulus(),
            decreases degree_z - k,
        {
            let s = tau_y[j].mul(tau_z[k]);
            let p = g.mul(&s);
            let ghost before = h_yz@;
            h_yz.push(p);
            proof {
                let w = ty[j as int] * tz[k as int];
                lemma_reduced(w);
                lemma_cong_mul(g.log(), g.log(), s@, w);
                assert forall|b: int, c: int| 0 <= b < j && 0 <= c < zz implies (
                #[trigger] h_yz@[b * zz + c]).log() == (g.log() * (ty[b] * tz[c])) % modulus() by {
                    lemma_row_bound(b, j as int, c, zz);
                    assert(before[b * zz + c] == h_yz@[b * zz + c]);
                }
            }
            k += 1;
        }
        proof {
            assert((j + 1) * zz == j * zz + zz) by (nonlinear_arith);
            assert forall|b: int, c: int| 0 <= b < j + 1 && 0 <= c < zz implies (
            #[trigger] h_yz@[b * zz + c]).log() == (g.log() * (ty[b] * tz[c])) % modulus() by {
                if b == j {
                    assert(h_yz@[j * zz + c].log() == (g.log() * (ty[j as int] * tz[c]))
                        % modulus());
                }
            }
        }
        j += 1;
    }
    let mut i: usize = 0;
    while i < degree_x
        invariant
            i <= degree_x,
            degree_x == tau_x@.len(),
            degree_y == tau_y@.len(),
            degree_z == tau_z@.len(),
            tx == vals(tau_x@),
            ty == vals(tau_y@),
            tz == vals(tau_z@),
            yy == degree_y,
            zz == degree_z,
            h_xyz@.len() == i * (yy * zz),
            forall|a: int, b: int, c: int|
                0 <= a < i && 0 <= b < yy && 0 <= c < zz ==> (#[trigger] h_xyz@[(a * yy + b) * zz
                    + c]).log() == (g.log() * (tx[a] * ty[b] * tz[c])) % modulus(),
        decreases degree_x - i,
    {
        proof {
            assert(0 * zz == 0) by (nonlinear_arith);
            assert(i * (yy * zz) == (i * yy) * zz) by (nonlinear_arith);
        }
        let mut j: usize = 0;
        while j < degree_y
            invariant
                j <= degree_y,
                i < degree_x,
                degree_x == tau_x@.len(),
                degree_y == tau_y@.len(),
                degree_z == tau_z@.len(),
                tx == vals(tau_x@),
                ty == vals(tau_y@),
                tz == vals(tau_z@),
                yy == degree_y,
                zz == degree_z,
                h_xyz@.len() == (i * yy + j) * zz,
                forall|a: int, b: int, c: int|
                    0 <= b < yy && 0 <= c < zz && 0 <= a && (a < i || a == i && b < j) ==> (
                    #[trigger] h_xyz@[(a * yy + b) * zz + c]).log() == (g.log() * (tx[a] * ty[b]
                        * tz[c])) % modulus(),
            decreases degree_y - j,
        {
            let ghost row = i * yy + j;
            proof {
                assert(0 <= i * yy) by (nonlinear_arith)
                    requires
                        i >= 0,
                        yy >= 0,
                ;
                assert(0 <= row * zz) by (nonlinear_arith)
                    requires
                        row >= 0,
                        zz >= 0,
                ;
            }
            let xy = tau_x[i].mul(tau_y[j]);
            let mut k: usize = 0;
            while k < degree_z
                invariant
                    k <= degree_z,
                    i < degree_x,
                    j < degree_y,
                    degree_x == tau_x@.len(),
                    degree_y == tau_y@.len(),
                    degree_z == tau_z@.len(),
                    tx == vals(tau_x@),
                    ty == vals(tau_y@),
                    tz == vals(tau_z@),
                    yy == degree_y,
                    zz == degree_z,
                    row == i * yy + j,
                    row >= 0,
                    0 <= row * zz,
                    xy@ == (tx[i as int] * ty[j as int]) % modulus(),
                    h_xyz@.len() == row * zz + k,
                    forall|a: int, b: int, c: int|
                        0 <= b < yy && 0 <= c < zz && 0 <= a && (a < i || a == i && b < j) ==> (
                        #[trigger] h_xyz@[(a * yy + b) * zz + c]).log() == (g.log() * (tx[a]
                            * ty[b] * tz[c])) % modulus(),
                    forall|c: int|
                        0 <= c < k ==> (#[trigger] h_xyz@[row * zz + c]).log() == (g.log() * (
                        tx[i as int] * ty[j as int] * tz[c])) % modulus(),
                decreases degree_z - k,
            {
                let s = xy.mul(tau_z[k]);
                let p = g.mul(&s);
                let ghost before = h_xyz@;
                h_xyz.push(p);
                proof {
                    let w = tx[i as int] * ty[j as int];
                    let t = tz[k as int];
                    lemma_reduced(w);
                    lemma_cong_mul(xy@, w, t, t);
                    lemma_reduced(xy@ * t);
                    lemma_cong_mul(g.log(), g.log(), s@, w * t);
                    assert forall|a: int, b: int, c: int|
                        0 <= b < yy && 0 <= c < zz && 0 <= a && (a < i || a == i && b
                            < j) implies (#[trigger] h_xyz@[(a * yy + b) * zz + c]).log() == (
                    g.log() * (tx[a] * ty[b] * tz[c])) % modulus() by {
                        if a < i {
                            lemma_row_bound(a, i as int, b, yy);
                        }
                        assert(0 <= a * yy + b) by (nonlinear_arith)
                            requires
                                a >= 0,
                                b >= 0,
                                yy >= 0,
                        ;
                        lemma_row_bound(a * yy + b, row, c, zz);
                        assert(before[(a * yy + b) * zz + c] == h_xyz@[(a * yy + b) * zz + c]);
                    }
                }
                k += 1;
            }
            proof {
                assert((row + 1) * zz == row * zz + zz) by (nonlinear_arith);
                assert forall|a: int, b: int, c: int|
                    0 <= b < yy && 0 <= c < zz && 0 <= a && (a < i || a == i && b < j
                        + 1) implies (#[trigger] h_xyz@[(a * yy + b) * zz + c]).log() == (g.log()
                    * (tx[a] * ty[b] * tz[c])) % modulus() by {
                    if a == i && b == j {
                        assert(h_xyz@[row * zz + c].log() == (g.log() * (tx[i as int]
                            * ty[j as int] * tz[c])) % modulus());
                    }
                }
            }
            j += 1;
        }
        proof {
            assert((i * yy + yy) * zz == (i + 1) * (yy * zz)) by (nonlinear_arith);
            assert forall|a: int, b: int, c: int|
                0 <= a < i + 1 && 0 <= b < yy && 0 <= c < zz implies (#[trigger] h_xyz@[(a * yy
                + b) * zz + c]).log() == (g.log() * (tx[a] * ty[b] * tz[c])) % modulus() by {}
        }
        i += 1;
    }
    let v_x = multiples_of(&v, tau_x);
    let v_y = multiples_of(&v, tau_y);
    let v_z = multiples_of(&v, tau_z);
    KZH3SRS { degree_x, degree_y, degree_z, h_xyz, h_yz, h_z, v_x, v_y, v_z, v }
}

proof fn lemma_row_bound(b: int, j: int, c: int, z: int)
    requires
        0 <= b < j,
        0 <= c < z,
    ensures
        0 <= b * z + c < j * z,
{
    assert(0 <= b * z && b * z + z <= j * z) by (nonlinear_arith)
        requires
            0 <= b,
            b + 1 <= j,
            0 <= z,
    ;
}

/// The element times each of the scalars.
fn multiples_of(v: &G2, taus: &Vec<Fr>) -> (r: Vec<G2>)
    ensures
        r@.len() == taus@.len(),
        forall|i: int|
            0 <= i < r@.len() ==> (#[trigger] r@[i]).log() == (v.log() * taus@[i]@) % modulus(),
{
    let mut r: Vec<G2> = Vec::with_capacity(taus.len());
    let mut i: usize = 0;
    while i < taus.len()
        invariant
            i <= taus@.len(),
            r@.len() == i,
            forall|j: int|
                0 <= j < i ==> (#[trigger] r@[j]).log() == (v.log() * taus@[j]@) % modulus(),
        decreases taus.len() - i,
    {
        r.push(v.mul(&taus[i]));
        i += 1;
    }
    r
}

/// `n` random scalars.
fn random_scalars(n: usize) -> (r: Vec<Fr>)
    ensures
        r@.len() == n,
{
    let mut r: Vec<Fr> = Vec::with_capacity(n);
    let mut i: usize = 0;
    while i < n
        invariant
            i <= n,
            r@.len() == i,
        decreases n - i,
    {
        r.push(random_scalar());
        i += 1;
    }
    r
}

/// Parameters for polynomials in `maximum_degree` variables, from random base points and secrets.
pub fn setup_kzh3_srs(maximum_degree: usize) -> (srs: KZH3SRS)
    requires
        maximum_degree < usize::BITS,
    ensures
        srs.sized(),
        srs.total() == maximum_degree,
        srs.x_log() >= srs.y_log() >= srs.z_log(),
        srs.x_log() - srs.z_log() <= 1,
        exists|g: int, tau_x: Seq<int>, tau_y: Seq<int>, tau_z: Seq<int>| #[trigger]
            srs.generated(g, tau_x, tau_y, tau_z),
{
    let (x_log, y_log, z_log) = get_degree_from_maximum_supported_degree(maximum_degree);
    let degree_x = two_to(x_log);
    let degree_y = two_to(y_log);
    let degree_z = two_to(z_log);
    proof {
        lemma_log_of(x_log as nat);
        lemma_log_of(y_log as nat);
        lemma_log_of(z_log as nat);
    }
    let g = G1::random();
    let v = G2::random();
    let tau_x = random_scalars(degree_x);
    let tau_y = random_scalars(degree_y);
    let tau_z = random_scalars(degree_z);
    srs_from_secrets(g, v, &tau_x, &tau_y, &tau_z)
}

/// The commitments along `x` that an opening needs.
#[derive(Debug)]
pub struct KZH3Aux {
    pub d_x: Vec<G1>,
}

/// An opening of a commitment at a point.
#[derive(Debug)]
pub struct KZH3Opening {
    pub d_x: Vec<G1>,
    pub d_y: Vec<G1>,
    pub c_y: G1,
    pub f_star: DenseMLPoly,
}

/// The table of a polynomial over as many variables as the parameters are for.
pub open spec fn whole_table(srs: &KZH3SRS, poly: &DenseMLPoly) -> Seq<int> {
    if poly.n == srs.total() {
        poly.table()
    } else {
        zero_extended(poly.table(), srs.total())
    }
}

/// The parameters can hold the polynomial.
pub open spec fn committable(srs: &KZH3SRS, poly: &DenseMLPoly) -> bool {
    &&& srs.sized()
    &&& poly.n <= srs.total()
    &&& poly.n == srs.total() ==> poly.well_formed()
    &&& poly.evaluations@.len() <= pow2(srs.total())
}

/// The logarithm of the commitment to a table.
pub open spec fn commitment_log(srs: &KZH3SRS, table: Seq<int>) -> int {
    inner(table, g1_logs(srs.h_xyz@)) % modulus()
}

/// The logarithms of the commitments to the slices of a table along `x`.
pub open spec fn slice_logs(srs: &KZH3SRS, table: Seq<int>) -> Seq<int> {
    Seq::new(
        srs.degree_x as nat,
        |i: int|
            inner(
                table.subrange(
                    i * pow2(srs.y_log() + srs.z_log()),
                    (i + 1) * pow2(srs.y_log() + srs.z_log()),
                ),
                g1_logs(srs.h_yz@),
            ) % modulus(),
    )
}

/// A polynomial over as many variables as the parameters are for.
fn whole_poly(srs: &KZH3SRS, poly: &DenseMLPoly) -> (r: DenseMLPoly)
    requires
        committable(srs, poly),
    ensures
        r.n == srs.total(),
        r.well_formed(),
        r.table() == whole_table(srs, poly),
{
    let len = log_2(srs.degree_x) + log_2(srs.degree_y) + log_2(srs.degree_z);
    poly.clone().extend_number_of_variables(len)
}

/// The inner products of consecutive slices of a table with one list of bases.
fn slice_commitments(
    poly: &DenseMLPoly,
    bases: &Vec<G1>,
    count: usize,
    size: usize,
) -> (r: Vec<G1>)
    requires
        bases@.len() == size,
        count * size <= poly.evaluations@.len(),
    ensures
        r@.len() == count,
        forall|i: int|
            0 <= i < count ==> (#[trigger] r@[i]).log() == inner(
                poly.table().subrange(i * size, (i + 1) * size),
                g1_logs(bases@),
            ) % modulus(),
{
    let mut r: Vec<G1> = Vec::with_capacity(count);
    let mut i: usize = 0;
    while i < count
        invariant
            i <= count,
            bases@.len() == size,
            count * size <= poly.evaluations@.len(),
            r@.len() == i,
            forall|j: int|
                0 <= j < i ==> (#[trigger] r@[j]).log() == inner(
                    poly.table().subrange(j * size, (j + 1) * size),
                    g1_logs(bases@),
                ) % modulus(),
        decreases count - i,
    {
        proof {
            assert(i * size + size <= count * size) by (nonlinear_arith)
                requires
                    i + 1 <= count,
            ;
            assert(0 <= i * size) by (nonlinear_arith);
            assert((i + 1) * size == i * size + size) by (nonlinear_arith);
            assert(size * i == i * size) by (nonlinear_arith);
        }
        let slice = poly.get_partial_evaluation_for_boolean_input(i, size);
        proof {
            assert(vals(slice@) =~= poly.table().subrange(i * size, (i + 1) * size));
        }
        r.push(G1::msm(bases.as_slice(), slice));
        i += 1;
    }
    r
}

pub(crate) proof fn lemma_sizes(srs: &KZH3SRS)
    requires
        srs.sized(),
    ensures
        pow2(srs.y_log() + srs.z_log()) == srs.degree_y * srs.degree_z,
        pow2(srs.total()) == srs.degree_x * pow2(srs.y_log() + srs.z_log()),
        pow2(srs.total()) <= usize::MAX,
        srs.degree_x >= 1,
        srs.degree_y >= 1,
        srs.degree_z >= 1,
        srs.degree_y * srs.degree_z <= usize::MAX,
{
    let (x, y, z) = (srs.x_log(), srs.y_log(), srs.z_log());
    assert(pow2(x) == srs.degree_x && pow2(y) == srs.degree_y && pow2(z) == srs.degree_z);
    vstd::arithmetic::power2::lemma_pow2_adds(y, z);
    vstd::arithmetic::power2::lemma_pow2_adds(x, y + z);
    vstd::bits::lemma_usize_pow2_no_overflow(srs.total());
    lemma_pow2_mono(y + z, srs.total());
    vstd::arithmetic::power2::lemma_pow2_pos(x);
    vstd::arithmetic::power2::lemma_pow2_pos(y);
    vstd::arithmetic::power2::lemma_pow2_pos(z);
}

/// Commits to a polynomial.
pub fn kzh3_commit(srs: &KZH3SRS, poly: &DenseMLPoly) -> (r: (G1, KZH3Aux))
    requires
        committable(srs, poly),
    ensures
        r.0.log() == commitment_log(srs, whole_table(srs, poly)),
        g1_logs(r.1.d_x@) =~= slice_logs(srs, whole_table(srs, poly)),
{
    let whole = whole_poly(srs, poly);
    proof {
        lemma_sizes(srs);
    }
    let c = G1::msm(srs.h_xyz.as_slice(), whole.evaluations.as_slice());
    let yz_size = srs.degree_y * srs.degree_z;
    let d_x = slice_commitments(&whole, &srs.h_yz, srs.degree_x, yz_size);
    (c, KZH3Aux { d_x })
}

/// The coordinates of a point along `x`, as the scheme splits it.
pub open spec fn x_part(srs: &KZH3SRS, point: Seq<int>) -> Seq<int> {
    prepended(point, 0, srs.total()).subrange(
        (srs.z_log() + srs.y_log()) as int,
        srs.total() as int,
    )
}

/// The coordinates of a point along `y`.
pub open spec fn y_part(srs: &KZH3SRS, point: Seq<int>) -> Seq<int> {
    prepended(point, 0, srs.total()).subrange(
        srs.z_log() as int,
        (srs.z_log() + srs.y_log()) as int,
    )
}

/// The coordinates of a point along `z`.
pub open spec fn z_part(srs: &KZH3SRS, point: Seq<int>) -> Seq<int> {
    prepended(point, 0, srs.total()).subrange(0, srs.z_log() as int)
}

/// The weights that a point gives the entries of a table, reduced.
pub open spec fn weights(r: Seq<int>) -> Seq<int> {
    Seq::new(pow2(r.len()), |i: int| eq_weight(r, i) % modulus())
}

/// Every entry reduced.
pub open spec fn reduced(s: Seq<int>) -> Seq<int> {
    Seq::new(s.len(), |i: int| s[i] % modulus())
}

/// The logarithms of the commitments to the slices along `y` of the polynomial with its `x`
/// variables fixed.
pub open spec fn y_slice_logs(srs: &KZH3SRS, table: Seq<int>, point: Seq<int>) -> Seq<int> {
    let fixed = reduced(fixed_high(table, srs.y_log() + srs.z_log(), x_part(srs, point)));
    Seq::new(
        srs.degree_y as nat,
        |j: int|
            inner(
                fixed.subrange(j * srs.degree_z, (j + 1) * srs.degree_z),
                g1_logs(srs.h_z@),
            ) % modulus(),
    )
}

/// The table of the polynomial with its `x` and `y` variables fixed.
pub open spec fn star_table(srs: &KZH3SRS, table: Seq<int>, point: Seq<int>) -> Seq<int> {
    reduced(fixed_high(table, srs.z_log(), y_part(srs, point) + x_part(srs, point)))
}

/// The logarithm of the commitment to the polynomial with its `x` variables fixed.
pub open spec fn y_commitment_log(srs: &KZH3SRS, d_x: Seq<int>, point: Seq<int>) -> int {
    inner(weights(x_part(srs, point)), d_x) % modulus()
}

/// The views of the parts of a split point.
pub(crate) proof fn lemma_parts(srs: &KZH3SRS, input: Seq<Fr>, zero: Fr, parts: Seq<Vec<Fr>>)
    requires
        srs.sized(),
        zero@ == 0,
        ({
            let whole = prepended(input, zero, srs.total());
            let (x, y, z) = (srs.x_log() as int, srs.y_log() as int, srs.z_log() as int);
            &&& parts.len() == 3
            &&& parts[0]@ == whole.subrange(0, z)
            &&& parts[1]@ == whole.subrange(z, z + y)
            &&& parts[2]@ == whole.subrange(z + y, z + y + x)
        }),
    ensures
        vals(parts[0]@) =~= z_part(srs, vals(input)),
        vals(parts[1]@) =~= y_part(srs, vals(input)),
        vals(parts[2]@) =~= x_part(srs, vals(input)),
        parts[0]@.len() == srs.z_log(),
        parts[1]@.len() == srs.y_log(),
        parts[2]@.len() == srs.x_log(),
{
    assert(vals(prepended(input, zero, srs.total())) =~= prepended(
        vals(input),
        0,
        srs.total(),
    ));
}

/// Fixing the last variables, none of them included.
fn fix_high(poly: &DenseMLPoly, point: &[Fr]) -> (r: DenseMLPoly)
    requires
        poly.well_formed(),
        poly.n < usize::BITS,
        point@.len() <= poly.n,
    ensures
        r.n == poly.n - point@.len(),
        r.well_formed(),
        r.table() =~= reduced(
            fixed_high(poly.table(), (poly.n - point@.len()) as nat, vals(point@)),
        ),
{
    let r = fix_variables_from_right(poly, point);
    proof {
        let k = (poly.n - point@.len()) as nat;
        let goal = reduced(fixed_high(poly.table(), k, vals(point@)));
        if point@.len() == 0 {
            assert forall|q: int| 0 <= q < pow2(k) implies #[trigger] r.table()[q] == goal[q] by {
                let none = vals(point@);
                assert(none =~= Seq::<int>::empty());
                assert(bits(q, k) + none =~= bits(q, k));
                crate::mle::lemma_mle_bits(poly.table(), q, k);
                lemma_fr_range(poly.evaluations@[q]);
            }
        } else {
            assert(zero_extended(poly.table(), poly.n as nat) =~= poly.table());
            assert forall|q: int| 0 <= q < pow2(k) implies #[trigger] r.table()[q] == goal[q] by {
                assert(r.evaluations@[q]@ == mle(poly.table(), bits(q, k) + vals(point@))
                    % modulus());
            }
        }
    }
    r
}

/// Opens a commitment at a point.
pub fn kzh3_open(
    srs: &KZH3SRS,
    input: &[Fr],
    _com: &G1,
    aux: &KZH3Aux,
    poly: &DenseMLPoly,
) -> (r: KZH3Opening)
    requires
        committable(srs, poly),
        aux.d_x@.len() == srs.degree_x,
    ensures
        r.d_x@ == aux.d_x@,
        g1_logs(r.d_y@) =~= y_slice_logs(srs, whole_table(srs, poly), vals(input@)),
        r.c_y.log() == y_commitment_log(srs, g1_logs(aux.d_x@), vals(input@)),
        r.f_star.n == srs.z_log(),
        r.f_star.table() =~= star_table(srs, whole_table(srs, poly), vals(input@)),
{
    let whole = whole_poly(srs, poly);
    let zero = scalar_field_zero();
    let parts = split_input(srs, input, zero);
    proof {
        lemma_sizes(srs);
        lemma_parts(srs, input@, zero, parts@);
    }
    let r_y = &parts[1];
    let r_x = &parts[2];
    let f_prime = fix_high(&whole, r_x.as_slice());
    let eq_x_evals = evaluate_lagrange_basis(r_x.as_slice());
    let d_y = slice_commitments(&f_prime, &srs.h_z, srs.degree_y, srs.degree_z);
    let mut yx_point = Fr::copy_of(r_y.as_slice());
    let mut i: usize = 0;
    while i < r_x.len()
        invariant
            i <= r_x@.len(),
            yx_point@ == r_y@ + r_x@.take(i as int),
        decreases r_x.len() - i,
    {
        yx_point.push(r_x[i]);
        i += 1;
    }
    proof {
        assert(r_x@.take(r_x@.len() as int) =~= r_x@);
        assert(vals(yx_point@) =~= vals(r_y@) + vals(r_x@));
    }
    let f_star = fix_high(&whole, yx_point.as_slice());
    let c_y = G1::msm(aux.d_x.as_slice(), eq_x_evals.as_slice());
    let d_x = copy_points(&aux.d_x);
    proof {
        assert(vals(eq_x_evals@) =~= weights(x_part(srs, vals(input@))));
        let fixed = reduced(
            fixed_high(
                whole.table(),
                srs.y_log() + srs.z_log(),
                x_part(srs, vals(input@)),
            ),
        );
        assert(f_prime.table() == fixed);
    }
    KZH3Opening { d_x, d_y, c_y, f_star }
}

fn copy_points(points: &Vec<G1>) -> (r: Vec<G1>)
    ensures
        r@ == points@,
{
    copy_range(points, 0, points.len())
}

/// The checks that a verifier makes, over the logarithms.
pub open spec fn opening_ok(
    srs: &KZH3SRS,
    point: Seq<int>,
    output: int,
    com: int,
    d_x: Seq<int>,
    d_y: Seq<int>,
    c_y: int,
    f_star: Seq<int>,
) -> bool {
    let v = srs.v.log();
    &&& cong(inner(d_x, g2_logs(srs.v_x@)), com * v)
    &&& cong(inner(weights(x_part(srs, point)), d_x), c_y)
    &&& cong(inner(d_y, g2_logs(srs.v_y@)), c_y * v)
    &&& cong(inner(f_star, g1_logs(srs.h_z@)), inner(weights(y_part(srs, point)), d_y))
    &&& mle(f_star, z_part(srs, point)) % modulus() == output
}

/// The opening has the shape that the parameters ask for.
pub open spec fn shaped(srs: &KZH3SRS, open: &KZH3Opening) -> bool {
    &&& srs.sized()
    &&& open.d_x@.len() == srs.degree_x
    &&& open.d_y@.len() == srs.degree_y
    &&& open.f_star.n == srs.z_log()
    &&& open.f_star.well_formed()
}

/// Verifies that a committed polynomial has the value `output` at a point.
pub fn kzh3_verify(
    srs: &KZH3SRS,
    input: &[Fr],
    output: &Fr,
    com: &G1,
    open: &KZH3Opening,
) -> (r: bool)
    requires
        shaped(srs, open),
    ensures
        r == opening_ok(
            srs,
            vals(input@),
            output@,
            com.log(),
            g1_logs(open.d_x@),
            g1_logs(open.d_y@),
            open.c_y.log(),
            open.f_star.table(),
        ),
{
    let zero = scalar_field_zero();
    let parts = split_input(srs, input, zero);
    proof {
        lemma_sizes(srs);
        lemma_parts(srs, input@, zero, parts@);
    }
    let eq_evals_x = evaluate_lagrange_basis(parts[2].as_slice());
    let eq_evals_y = evaluate_lagrange_basis(parts[1].as_slice());
    proof {
        assert(vals(eq_evals_x@) =~= weights(x_part(srs, vals(input@))));
        assert(vals(eq_evals_y@) =~= weights(y_part(srs, vals(input@))));
    }
    // The slices along x make up the commitment.
    let lhs = Gt::multi_pairing(open.d_x.as_slice(), srs.v_x.as_slice());
    let rhs = Gt::pairing(com, &srs.v);
    if !lhs.equals(&rhs) {
        return false;
    }
    // Their combination at the point is the commitment with x fixed.
    let computed_c_y = G1::msm(open.d_x.as_slice(), eq_evals_x.as_slice());
    let same_c_y = computed_c_y.equals(&open.c_y);
    proof {
        vstd::arithmetic::div_mod::lemma_small_mod(open.c_y.log() as nat, modulus() as nat);
    }
    if !same_c_y {
        return false;
    }
    // The slices along y make up that commitment.
    let lhs = Gt::multi_pairing(open.d_y.as_slice(), srs.v_y.as_slice());
    let rhs = Gt::pairing(&open.c_y, &srs.v);
    if !lhs.equals(&rhs) {
        return false;
    }
    // Their combination at the point is the commitment to the polynomial in z.
    let msm_lhs = G1::msm(srs.h_z.as_slice(), open.f_star.evaluations.as_slice());
    let msm_rhs = G1::msm(open.d_y.as_slice(), eq_evals_y.as_slice());
    if !msm_lhs.equals(&msm_rhs) {
        return false;
    }
    let computed_output = open.f_star.evaluate_at_point(parts[0].as_slice());
    computed_output.equals(output)
}

/// When the bases of each slice are those of one slice times the slice's factor, the inner product
/// with the whole table is the sum of the inner products of the slices, each times its factor.
proof fn lemma_slices(
    table: Seq<int>,
    whole: Seq<int>,
    one: Seq<int>,
    factors: Seq<int>,
    count: int,
    size: int,
)
    requires
        count >= 0,
        size >= 0,
        table.len() == count * size,
        whole.len() == count * size,
        one.len() == size,
        factors.len() == count,
        forall|i: int, k: int|
            0 <= i < count && 0 <= k < size ==> cong(
                #[trigger] whole[i * size + k],
                factors[i] * one[k],
            ),
    ensures
        cong(
            inner(table, whole),
            sum_to(
                |i: int| factors[i] * inner(table.subrange(i * size, (i + 1) * size), one),
                count,
            ),
        ),
{
    let f = |p: int| table[p] * whole[p];
    lemma_sum_blocks(f, count, size);
    let rows = |i: int| sum_to(|k: int| f(i * size + k), size);
    let goal = |i: int| factors[i] * inner(table.subrange(i * size, (i + 1) * size), one);
    assert forall|i: int| 0 <= i < count implies cong(#[trigger] rows(i), goal(i)) by {
        lemma_row_bound_all(i, count, size);
        let slice = table.subrange(i * size, (i + 1) * size);
        let row = |k: int| f(i * size + k);
        let term = |k: int| slice[k] * one[k];
        lemma_sum_scale(factors[i], term, size);
        let scaled = |k: int| factors[i] * term(k);
        assert forall|k: int| 0 <= k < size implies cong(#[trigger] row(k), scaled(k)) by {
            assert(cong(whole[i * size + k], factors[i] * one[k]));
            let (t, w, c, o) = (slice[k], whole[i * size + k], factors[i], one[k]);
            lemma_cong_mul(t, t, w, c * o);
            assert(t * (c * o) == c * (t * o)) by (nonlinear_arith);
        }
        lemma_sum_cong(row, scaled, size);
    }
    lemma_sum_cong(rows, goal, count);
}

proof fn lemma_row_bound_all(i: int, count: int, size: int)
    requires
        0 <= i < count,
        size >= 0,
    ensures
        0 <= i * size,
        (i + 1) * size == i * size + size,
        i * size + size <= count * size,
{
    assert(0 <= i * size && (i + 1) * size == i * size + size && i * size + size <= count * size)
        by (nonlinear_arith)
        requires
            0 <= i,
            i + 1 <= count,
            size >= 0,
    ;
}

/// What a pairing of the slices with the second group sees: the sum of the slices, each times its
/// factor, times the base point.
proof fn lemma_pairing_sum(slices: Seq<int>, factors: Seq<int>, logs: Seq<int>, v: int)
    requires
        slices.len() == factors.len(),
        logs.len() == factors.len(),
        forall|i: int| 0 <= i < logs.len() ==> #[trigger] logs[i] == (v * factors[i]) % modulus(),
    ensures
        cong(
            inner(slices, logs),
            sum_to(|i: int| factors[i] * slices[i], factors.len() as int) * v,
        ),
{
    let n = factors.len() as int;
    let f = |i: int| slices[i] * logs[i];
    let g = |i: int| factors[i] * slices[i];
    let scaled = |i: int| v * g(i);
    lemma_sum_scale(v, g, n);
    assert forall|i: int| 0 <= i < n implies cong(#[trigger] f(i), scaled(i)) by {
        assert(logs[i] == (v * factors[i]) % modulus());
        lemma_reduced(v * factors[i]);
        let (s, l, t) = (slices[i], logs[i], factors[i]);
        lemma_cong_mul(s, s, l, v * t);
        assert(s * (v * t) == v * (t * s)) by (nonlinear_arith);
    }
    lemma_sum_cong(f, scaled, n);
    let s = sum_to(g, n);
    assert(v * s == s * v) by (nonlinear_arith);
}

/// Combining the slices of a table with the weights of a point, before or after the inner product
/// with the bases.
proof fn lemma_combined(
    table: Seq<int>,
    one: Seq<int>,
    weight: Seq<int>,
    combined: Seq<int>,
    count: int,
    size: int,
)
    requires
        count >= 0,
        size >= 0,
        table.len() == count * size,
        one.len() == size,
        weight.len() == count,
        combined.len() == size,
        forall|k: int|
            0 <= k < size ==> cong(
                #[trigger] combined[k],
                sum_to(|i: int| weight[i] * table[i * size + k], count),
            ),
    ensures
        cong(
            sum_to(
                |i: int| weight[i] * inner(table.subrange(i * size, (i + 1) * size), one),
                count,
            ),
            inner(combined, one),
        ),
{
    let term = |i: int, k: int| (weight[i] * table[i * size + k]) * one[k];
    let left = |i: int| weight[i] * inner(table.subrange(i * size, (i + 1) * size), one);
    let rows = |i: int| sum_to(|k: int| term(i, k), size);
    assert forall|i: int| 0 <= i < count implies #[trigger] left(i) == rows(i) by {
        lemma_row_bound_all(i, count, size);
        let slice = table.subrange(i * size, (i + 1) * size);
        let g = |k: int| slice[k] * one[k];
        lemma_sum_scale(weight[i], g, size);
        let scaled = |k: int| weight[i] * g(k);
        let row = |k: int| term(i, k);
        assert forall|k: int| 0 <= k < size implies #[trigger] scaled(k) == row(k) by {
            let (w, t, o) = (weight[i], table[i * size + k], one[k]);
            assert(w * (t * o) == (w * t) * o) by (nonlinear_arith);
        }
        lemma_sum_ext(scaled, row, size);
    }
    lemma_sum_ext(left, rows, count);
    lemma_sum_swap(term, count, size);
    let cols = |k: int| sum_to(|i: int| term(i, k), count);
    let right = |k: int| combined[k] * one[k];
    assert forall|k: int| 0 <= k < size implies cong(#[trigger] cols(k), right(k)) by {
        let g = |i: int| weight[i] * table[i * size + k];
        let o = one[k];
        lemma_sum_scale(o, g, count);
        let scaled = |i: int| o * g(i);
        let col = |i: int| term(i, k);
        assert forall|i: int| 0 <= i < count implies #[trigger] scaled(i) == col(i) by {
            let v = g(i);
            assert(o * v == v * o) by (nonlinear_arith);
        }
        lemma_sum_ext(scaled, col, count);
        let s = sum_to(g, count);
        assert(cong(combined[k], s));
        lemma_cong_mul(s, combined[k], o, o);
        assert(o * s == s * o) by (nonlinear_arith);
    }
    lemma_sum_cong(cols, right, size);
}

/// The bases of the parameters factor along `x` and along `y`.
proof fn lemma_bases_factor(
    srs: &KZH3SRS,
    g: int,
    tau_x: Seq<int>,
    tau_y: Seq<int>,
    tau_z: Seq<int>,
)
    requires
        srs.sized(),
        srs.generated(g, tau_x, tau_y, tau_z),
    ensures
        forall|i: int, q: int|
            0 <= i < srs.degree_x && 0 <= q < pow2(srs.y_log() + srs.z_log()) ==> cong(
                #[trigger] g1_logs(srs.h_xyz@)[i * pow2(srs.y_log() + srs.z_log()) + q],
                tau_x[i] * g1_logs(srs.h_yz@)[q],
            ),
        forall|j: int, k: int|
            0 <= j < srs.degree_y && 0 <= k < srs.degree_z ==> cong(
                #[trigger] g1_logs(srs.h_yz@)[j * srs.degree_z + k],
                tau_y[j] * g1_logs(srs.h_z@)[k],
            ),
{
    lemma_sizes(srs);
    let (y, z) = (srs.degree_y as int, srs.degree_z as int);
    let size = pow2(srs.y_log() + srs.z_log()) as int;
    assert forall|i: int, q: int| 0 <= i < srs.degree_x && 0 <= q < size implies cong(
        #[trigger] g1_logs(srs.h_xyz@)[i * size + q],
        tau_x[i] * g1_logs(srs.h_yz@)[q],
    ) by {
        let j = q / z;
        let k = q % z;
        assert(q == j * z + k && 0 <= k < z && 0 <= j < y) by (nonlinear_arith)
            requires
                j == q / z,
                k == q % z,
                0 <= q < y * z,
                z >= 1,
        ;
        assert((i * y + j) * z + k == i * (y * z) + (j * z + k)) by (nonlinear_arith);
        lemma_row_bound_all(i, srs.degree_x as int, size);
        assert(srs.h_xyz@[(i * y + j) * z + k].log() == (g * (tau_x[i] * tau_y[j] * tau_z[k]))
            % modulus());
        assert(srs.h_yz@[j * z + k].log() == (g * (tau_y[j] * tau_z[k])) % modulus());
        let (tx, ty, tz) = (tau_x[i], tau_y[j], tau_z[k]);
        lemma_reduced(g * (tx * ty * tz));
        lemma_reduced(g * (ty * tz));
        lemma_cong_mul(tx, tx, srs.h_yz@[q].log(), g * (ty * tz));
        assert(tx * (g * (ty * tz)) == g * (tx * ty * tz)) by (nonlinear_arith);
    }
    assert forall|j: int, k: int| 0 <= j < y && 0 <= k < z implies cong(
        #[trigger] g1_logs(srs.h_yz@)[j * z + k],
        tau_y[j] * g1_logs(srs.h_z@)[k],
    ) by {
        lemma_row_bound(j, y, k, z);
        assert(srs.h_yz@[j * z + k].log() == (g * (tau_y[j] * tau_z[k])) % modulus());
        assert(srs.h_z@[k].log() == (g * tau_z[k]) % modulus());
        let (ty, tz) = (tau_y[j], tau_z[k]);
        lemma_reduced(g * (ty * tz));
        lemma_reduced(g * tz);
        lemma_cong_mul(ty, ty, srs.h_z@[k].log(), g * tz);
        assert(ty * (g * tz) == g * (ty * tz)) by (nonlinear_arith);
    }
}

/// Completeness: with parameters made from any secrets, the opening of a commitment at any point
/// with a coordinate for every variable is accepted for the value of the polynomial there.
pub proof fn lemma_honest_opening_accepted(
    srs: &KZH3SRS,
    g: int,
    tau_x: Seq<int>,
    tau_y: Seq<int>,
    tau_z: Seq<int>,
    table: Seq<int>,
    point: Seq<int>,
)
    requires
        srs.sized(),
        srs.generated(g, tau_x, tau_y, tau_z),
        table.len() == pow2(srs.total()),
        point.len() == srs.total(),
    ensures
        opening_ok(
            srs,
            point,
            mle(table, point) % modulus(),
            commitment_log(srs, table),
            slice_logs(srs, table),
            y_slice_logs(srs, table, point),
            y_commitment_log(srs, slice_logs(srs, table), point),
            star_table(srs, table, point),
        ),
{
    lemma_sizes(srs);
    lemma_bases_factor(srs, g, tau_x, tau_y, tau_z);
    let (x, y, z) = (srs.degree_x as int, srs.degree_y as int, srs.degree_z as int);
    let (yl, zl) = (srs.y_log(), srs.z_log());
    let yz = pow2(yl + zl) as int;
    let (r_x, r_y, r_z) = (x_part(srs, point), y_part(srs, point), z_part(srs, point));
    let (h_xyz, h_yz, h_z) = (g1_logs(srs.h_xyz@), g1_logs(srs.h_yz@), g1_logs(srs.h_z@));
    let v = srs.v.log();
    let com = commitment_log(srs, table);
    let d_x = slice_logs(srs, table);
    let d_y = y_slice_logs(srs, table, point);
    let c_y = y_commitment_log(srs, d_x, point);
    let star = star_table(srs, table, point);
    let raw_fixed = fixed_high(table, yl + zl, r_x);
    let fixed = reduced(raw_fixed);
    // The slices along x make up the commitment.
    let x_inner = |i: int| inner(table.subrange(i * yz, (i + 1) * yz), h_yz);
    let x_scaled = |i: int| tau_x[i] * inner(table.subrange(i * yz, (i + 1) * yz), h_yz);
    let x_logs = |i: int| tau_x[i] * d_x[i];
    lemma_slices(table, h_xyz, h_yz, tau_x, x, yz);
    assert forall|i: int| 0 <= i < x implies cong(#[trigger] x_scaled(i), x_logs(i)) by {
        lemma_reduced(x_inner(i));
        assert(d_x[i] == x_inner(i) % modulus());
        lemma_cong_mul(tau_x[i], tau_x[i], x_inner(i), d_x[i]);
    }
    lemma_sum_cong(x_scaled, x_logs, x);
    lemma_reduced(inner(table, h_xyz));
    assert forall|i: int| 0 <= i < x implies #[trigger] g2_logs(srs.v_x@)[i] == (v * tau_x[i])
        % modulus() by {
        assert(srs.v_x@[i].log() == (v * tau_x[i]) % modulus());
    }
    lemma_pairing_sum(d_x, tau_x, g2_logs(srs.v_x@), v);
    lemma_cong_mul(sum_to(x_logs, x), com, v, v);
    // Their combination is the commitment with x fixed.
    lemma_reduced(inner(weights(r_x), d_x));
    // That commitment is the inner product with the polynomial that is left.
    assert forall|q: int| 0 <= q < yz implies cong(
        #[trigger] fixed[q],
        sum_to(|i: int| weights(r_x)[i] * table[i * yz + q], x),
    ) by {
        lemma_mle_high_sum(table, q, yl + zl, r_x);
        lemma_reduced(raw_fixed[q]);
        lemma_weighted(r_x, |i: int| table[i * yz + q]);
        let a = |i: int| weights(r_x)[i] * table[i * yz + q];
        let b = |i: int| weights(r_x)[i] * (|i: int| table[i * yz + q])(i);
        lemma_sum_ext(a, b, x);
        let c = |i: int| eq_weight(r_x, i) * table[i * yz + q];
        let d = |i: int| eq_weight(r_x, i) * (|i: int| table[i * yz + q])(i);
        lemma_sum_ext(c, d, x);
    }
    lemma_combined(table, h_yz, weights(r_x), fixed, x, yz);
    let wx_scaled = |i: int|
        weights(r_x)[i] * inner(table.subrange(i * yz, (i + 1) * yz), h_yz);
    let wx_logs = |i: int| weights(r_x)[i] * d_x[i];
    assert forall|i: int| 0 <= i < x implies cong(#[trigger] wx_scaled(i), wx_logs(i)) by {
        lemma_reduced(x_inner(i));
        assert(d_x[i] == x_inner(i) % modulus());
        lemma_cong_mul(weights(r_x)[i], weights(r_x)[i], x_inner(i), d_x[i]);
    }
    lemma_sum_cong(wx_scaled, wx_logs, x);
    assert(inner(weights(r_x), d_x) == sum_to(wx_logs, x));
    assert(cong(c_y, inner(fixed, h_yz)));
    // The slices along y make up that commitment.
    let y_inner = |j: int| inner(fixed.subrange(j * z, (j + 1) * z), h_z);
    let y_scaled = |j: int| tau_y[j] * inner(fixed.subrange(j * z, (j + 1) * z), h_z);
    let y_logs = |j: int| tau_y[j] * d_y[j];
    lemma_slices(fixed, h_yz, h_z, tau_y, y, z);
    assert forall|j: int| 0 <= j < y implies cong(#[trigger] y_scaled(j), y_logs(j)) by {
        lemma_reduced(y_inner(j));
        assert(d_y[j] == y_inner(j) % modulus());
        lemma_cong_mul(tau_y[j], tau_y[j], y_inner(j), d_y[j]);
    }
    lemma_sum_cong(y_scaled, y_logs, y);
    assert forall|j: int| 0 <= j < y implies #[trigger] g2_logs(srs.v_y@)[j] == (v * tau_y[j])
        % modulus() by {
        assert(srs.v_y@[j].log() == (v * tau_y[j]) % modulus());
    }
    lemma_pairing_sum(d_y, tau_y, g2_logs(srs.v_y@), v);
    lemma_cong_mul(sum_to(y_logs, y), c_y, v, v);
    // Their combination is the commitment to the polynomial in z.
    assert forall|k: int| 0 <= k < z implies cong(
        #[trigger] star[k],
        sum_to(|j: int| weights(r_y)[j] * fixed[j * z + k], y),
    ) by {
        let w = bits(k, zl) + r_y;
        crate::mle::lemma_bits_len(k, zl);
        lemma_mle_fixed_high(table, w, r_x);
        assert(w + r_x =~= bits(k, zl) + (r_y + r_x));
        assert(w.len() == yl + zl);
        lemma_mle_high_sum(raw_fixed, k, zl, r_y);
        let raw = fixed_high(table, zl, r_y + r_x)[k];
        assert(star[k] == raw % modulus());
        lemma_reduced(raw);
        let a = |j: int| eq_weight(r_y, j) * raw_fixed[j * z + k];
        let b = |j: int| weights(r_y)[j] * fixed[j * z + k];
        assert forall|j: int| 0 <= j < y implies cong(#[trigger] a(j), b(j)) by {
            lemma_row_bound(j, y, k, z);
            lemma_reduced(eq_weight(r_y, j));
            lemma_reduced(raw_fixed[j * z + k]);
            lemma_cong_mul(
                eq_weight(r_y, j),
                weights(r_y)[j],
                raw_fixed[j * z + k],
                fixed[j * z + k],
            );
        }
        lemma_sum_cong(a, b, y);
    }
    lemma_combined(fixed, h_z, weights(r_y), star, y, z);
    let wy_scaled = |j: int| weights(r_y)[j] * inner(fixed.subrange(j * z, (j + 1) * z), h_z);
    let wy_logs = |j: int| weights(r_y)[j] * d_y[j];
    assert forall|j: int| 0 <= j < y implies cong(#[trigger] wy_scaled(j), wy_logs(j)) by {
        lemma_reduced(y_inner(j));
        assert(d_y[j] == y_inner(j) % modulus());
        lemma_cong_mul(weights(r_y)[j], weights(r_y)[j], y_inner(j), d_y[j]);
    }
    lemma_sum_cong(wy_scaled, wy_logs, y);
    assert(inner(weights(r_y), d_y) == sum_to(wy_logs, y));
    // The polynomial in z has the value of the whole.
    let raw_star = fixed_high(table, zl, r_y + r_x);
    lemma_mle_fixed_high(table, r_z, r_y + r_x);
    assert(prepended(point, 0, srs.total()) == point);
    assert(r_z + (r_y + r_x) =~= point);
    assert forall|k: int| 0 <= k < pow2(zl) implies cong(#[trigger] star[k], raw_star[k]) by {
        lemma_reduced(raw_star[k]);
    }
    lemma_mle_cong(star, raw_star, r_z);
}

/// Reducing the weights changes a weighted sum by a multiple of the modulus.
proof fn lemma_weighted(r: Seq<int>, f: spec_fn(int) -> int)
    ensures
        cong(
            sum_to(|i: int| eq_weight(r, i) * f(i), pow2(r.len()) as int),
            sum_to(|i: int| weights(r)[i] * f(i), pow2(r.len()) as int),
        ),
{
    let n = pow2(r.len()) as int;
    let a = |i: int| eq_weight(r, i) * f(i);
    let b = |i: int| weights(r)[i] * f(i);
    assert forall|i: int| 0 <= i < n implies cong(#[trigger] a(i), b(i)) by {
        lemma_reduced(eq_weight(r, i));
        lemma_cong_mul(eq_weight(r, i), weights(r)[i], f(i), f(i));
    }
    lemma_sum_cong(a, b, n);
}

} // verus!
