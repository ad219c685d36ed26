//! The groups of the BN254 pairing.
//!
//! A group element is held by its affine coordinates. Each of the three groups is cyclic of the
//! scalar field's order, so an element is determined by its discrete logarithm: the multiple of the
//! group's generator that it is. The operations are those of `ark_ec` and `ark_bn254`, and their
//! contracts say what they do to the logarithms.
use crate::field::{modulus, vals, Fr};
use crate::math::sum_to;
use ark_bn254::{Bn254, Fq, Fq2, G1Affine, G1Projective, G2Affine};
use ark_ec::pairing::Pairing;
use ark_ec::{AffineRepr, CurveGroup, VariableBaseMSM};
use ark_ff::{BigInt, Field, PrimeField, UniformRand};
use ark_serialize::{CanonicalDeserialize, CanonicalSerialize};
use vstd::prelude::*;

verus! {

/// The affine coordinates of `k` times the generator of the first group.
pub uninterp spec fn g1_multiple(k: int) -> (Seq<u64>, Seq<u64>, bool);

/// The affine coordinates of `k` times the generator of the second group.
pub uninterp spec fn g2_multiple(k: int) -> (Seq<u64>, Seq<u64>, Seq<u64>, Seq<u64>, bool);

/// The coefficients of the pairing of `k` times the first generator with the second generator.
pub uninterp spec fn pairing_multiple(k: int) -> Seq<u64>;

/// The compressed bytes of an element of the first group with the given affine coordinates.
pub uninterp spec fn g1_compressed(p: (Seq<u64>, Seq<u64>, bool)) -> Seq<u8>;

/// The affine coordinates of the element of the first group that bytes are read as, if they are.
pub uninterp spec fn g1_decompressed(bytes: Seq<u8>) -> Option<(Seq<u64>, Seq<u64>, bool)>;

/// `k` is the reduced discrete logarithm of the point with these coordinates.
pub open spec fn is_g1_log(p: (Seq<u64>, Seq<u64>, bool), k: int) -> bool {
    0 <= k < modulus() && p == g1_multiple(k)
}

/// `k` is the reduced discrete logarithm of the point with these coordinates.
pub open spec fn is_g2_log(p: (Seq<u64>, Seq<u64>, Seq<u64>, Seq<u64>, bool), k: int) -> bool {
    0 <= k < modulus() && p == g2_multiple(k)
}

/// `k` is the reduced discrete logarithm of the element with these coefficients.
pub open spec fn is_gt_log(p: Seq<u64>, k: int) -> bool {
    0 <= k < modulus() && p == pairing_multiple(k)
}

/// An element of the first group.
#[derive(Clone, Copy, Debug)]
pub struct G1 {
    x: [u64; 4],
    y: [u64; 4],
    infinity: bool,
}

/// An element of the second group.
#[derive(Clone, Copy, Debug)]
pub struct G2 {
    x0: [u64; 4],
    x1: [u64; 4],
    y0: [u64; 4],
    y1: [u64; 4],
    infinity: bool,
}

/// An element of the target group.
#[derive(Debug)]
pub struct Gt {
    coefficients: Vec<u64>,
}

impl View for G1 {
    type V = (Seq<u64>, Seq<u64>, bool);

    closed spec fn view(&self) -> (Seq<u64>, Seq<u64>, bool) {
        (self.x@, self.y@, self.infinity)
    }
}

impl View for G2 {
    type V = (Seq<u64>, Seq<u64>, Seq<u64>, Seq<u64>, bool);

    closed spec fn view(&self) -> (Seq<u64>, Seq<u64>, Seq<u64>, Seq<u64>, bool) {
        (self.x0@, self.x1@, self.y0@, self.y1@, self.infinity)
    }
}

impl View for Gt {
    type V = Seq<u64>;

    closed spec fn view(&self) -> Seq<u64> {
        self.coefficients@
    }
}

/// The logarithms of a list of elements of the first group.
pub open spec fn g1_logs(s: Seq<G1>) -> Seq<int> {
    s.map_values(|p: G1| p.log())
}

/// The logarithms of a list of elements of the second group.
pub open spec fn g2_logs(s: Seq<G2>) -> Seq<int> {
    s.map_values(|p: G2| p.log())
}

/// `a[0] * b[0] + a[1] * b[1] + ...` over as many terms as `a` has.
pub open spec fn inner(a: Seq<int>, b: Seq<int>) -> int {
    sum_to(|i: int| a[i] * b[i], a.len() as int)
}

/// Scalar multiplication of the generator of `ark_bn254::G1Affine`: the point's coordinates are a
/// function of the scalar, and its logarithm is the scalar.
#[verifier::external_body]
fn ark_g1_generator_mul(k: &Fr) -> (r: G1)
    ensures
        r@ == g1_multiple(k@),
        r.log() == k@,
{
    let r = (G1Affine::generator() * ark_bn254::Fr::new(BigInt(k.limbs()))).into_affine();
    G1 { x: r.x.into_bigint().0, y: r.y.into_bigint().0, infinity: r.infinity }
}

/// Scalar multiplication of the generator of `ark_bn254::G2Affine`: the point's coordinates are a
/// function of the scalar, and its logarithm is the scalar.
#[verifier::external_body]
fn ark_g2_generator_mul(k: &Fr) -> (r: G2)
    ensures
        r@ == g2_multiple(k@),
        r.log() == k@,
{
    let r = (G2Affine::generator() * ark_bn254::Fr::new(BigInt(k.limbs()))).into_affine();
    let (x0, x1) = (r.x.c0.into_bigint().0, r.x.c1.into_bigint().0);
    G2 { x0, x1, y0: r.y.c0.into_bigint().0, y1: r.y.c1.into_bigint().0, infinity: r.infinity }
}

/// `UniformRand::rand` on `ark_bn254::G1Affine`: some element of the group.
#[verifier::external_body]
fn ark_g1_rand() -> G1 {
    let r = G1Affine::rand(&mut rand::thread_rng());
    G1 { x: r.x.into_bigint().0, y: r.y.into_bigint().0, infinity: r.infinity }
}

/// `UniformRand::rand` on `ark_bn254::G2Affine`: some element of the group.
#[verifier::external_body]
fn ark_g2_rand() -> G2 {
    let r = G2Affine::rand(&mut rand::thread_rng());
    let (x0, x1) = (r.x.c0.into_bigint().0, r.x.c1.into_bigint().0);
    G2 { x0, x1, y0: r.y.c0.into_bigint().0, y1: r.y.c1.into_bigint().0, infinity: r.infinity }
}

/// `UniformRand::rand` on `ark_bn254::Fr`: some field element.
#[verifier::external_body]
fn ark_fr_rand() -> Fr {
    Fr::from_limbs(ark_bn254::Fr::rand(&mut rand::thread_rng()).into_bigint().0)
}

/// Point addition of `ark_bn254::G1Affine`: the logarithms add up.
#[verifier::external_body]
fn ark_g1_add(a: &G1, b: &G1) -> (r: G1)
    ensures
        r.log() == (a.log() + b.log()) % modulus(),
{
    let (ax, ay) = (Fq::new(BigInt(a.x)), Fq::new(BigInt(a.y)));
    let (bx, by) = (Fq::new(BigInt(b.x)), Fq::new(BigInt(b.y)));
    let p = G1Affine { x: ax, y: ay, infinity: a.infinity };
    let q = G1Affine { x: bx, y: by, infinity: b.infinity };
    let r = (p + q).into_affine();
    G1 { x: r.x.into_bigint().0, y: r.y.into_bigint().0, infinity: r.infinity }
}

/// Negation of `ark_bn254::G1Affine`: the logarithm changes its sign.
#[verifier::external_body]
fn ark_g1_neg(a: &G1) -> (r: G1)
    ensures
        r.log() == (-a.log()) % modulus(),
{
    let (ax, ay) = (Fq::new(BigInt(a.x)), Fq::new(BigInt(a.y)));
    let r = -G1Affine { x: ax, y: ay, infinity: a.infinity };
    G1 { x: r.x.into_bigint().0, y: r.y.into_bigint().0, infinity: r.infinity }
}

/// Scalar multiplication of `ark_bn254::G1Affine`: the logarithm is multiplied by the scalar.
#[verifier::external_body]
fn ark_g1_mul(a: &G1, k: &Fr) -> (r: G1)
    ensures
        r.log() == (a.log() * k@) % modulus(),
{
    let (ax, ay) = (Fq::new(BigInt(a.x)), Fq::new(BigInt(a.y)));
    let p = G1Affine { x: ax, y: ay, infinity: a.infinity };
    let r = (p * ark_bn254::Fr::new(BigInt(k.limbs()))).into_affine();
    G1 { x: r.x.into_bigint().0, y: r.y.into_bigint().0, infinity: r.infinity }
}

/// Scalar multiplication of `ark_bn254::G2Affine`: the logarithm is multiplied by the scalar.
#[verifier::external_body]
fn ark_g2_mul(a: &G2, k: &Fr) -> (r: G2)
    ensures
        r.log() == (a.log() * k@) % modulus(),
{
    let ax = Fq2::new(Fq::new(BigInt(a.x0)), Fq::new(BigInt(a.x1)));
    let ay = Fq2::new(Fq::new(BigInt(a.y0)), Fq::new(BigInt(a.y1)));
    let p = G2Affine { x: ax, y: ay, infinity: a.infinity };
    let r = (p * ark_bn254::Fr::new(BigInt(k.limbs()))).into_affine();
    let (x0, x1) = (r.x.c0.into_bigint().0, r.x.c1.into_bigint().0);
    G2 { x0, x1, y0: r.y.c0.into_bigint().0, y1: r.y.c1.into_bigint().0, infinity: r.infinity }
}

/// `ark_ec::VariableBaseMSM::msm` on `ark_bn254::G1Projective`: the sum of the bases, each times
/// its scalar. It fails on lists of different lengths.
#[verifier::external_body]
fn ark_g1_msm(bases: &[G1], scalars: &[Fr]) -> (r: G1)
    requires
        bases@.len() == scalars@.len(),
    ensures
        r.log() == inner(vals(scalars@), g1_logs(bases@)) % modulus(),
{
    let coords = |p: &G1| (Fq::new(BigInt(p.x)), Fq::new(BigInt(p.y)), p.infinity);
    let points: Vec<G1Affine> =
        bases.iter().map(coords).map(|(x, y, infinity)| G1Affine { x, y, infinity }).collect();
    let ks: Vec<ark_bn254::Fr> =
        scalars.iter().map(|k| ark_bn254::Fr::new(BigInt(k.limbs()))).collect();
    let r = G1Projective::msm(&points, &ks).unwrap().into_affine();
    G1 { x: r.x.into_bigint().0, y: r.y.into_bigint().0, infinity: r.infinity }
}

/// `ark_ec::pairing::Pairing::multi_pairing` on `ark_bn254::Bn254`: the product of the pairings of
/// the elements, pair by pair, which is bilinear. It fails on lists of different lengths.
#[verifier::external_body]
fn ark_multi_pairing(a: &[G1], b: &[G2]) -> (r: Gt)
    requires
        a@.len() == b@.len(),
    ensures
        r@ == pairing_multiple(inner(g1_logs(a@), g2_logs(b@)) % modulus()),
        r.log() == inner(g1_logs(a@), g2_logs(b@)) % modulus(),
{
    let fq = |limbs: [u64; 4]| Fq::new(BigInt(limbs));
    let ps = a.iter().map(|p| G1Affine { x: fq(p.x), y: fq(p.y), infinity: p.infinity });
    let qs = b.iter().map(|q| {
        let (x, y) = (Fq2::new(fq(q.x0), fq(q.x1)), Fq2::new(fq(q.y0), fq(q.y1)));
        G2Affine { x, y, infinity: q.infinity }
    });
    let r = Bn254::multi_pairing(ps, qs).0;
    let coefficients = r.to_base_prime_field_elements().flat_map(|f| f.into_bigint().0).collect();
    Gt { coefficients }
}

/// `CanonicalSerialize::serialize_compressed` on `ark_bn254::G1Affine`: the bytes are a function of
/// the coordinates, and there are 32 of them.
#[verifier::external_body]
fn ark_g1_compress(p: &G1) -> (r: Vec<u8>)
    ensures
        r@ == g1_compressed(p@),
        r@.len() == 32,
{
    let (x, y) = (Fq::new(BigInt(p.x)), Fq::new(BigInt(p.y)));
    let mut bytes = Vec::new();
    G1Affine { x, y, infinity: p.infinity }.serialize_compressed(&mut bytes).unwrap();
    bytes
}

/// `CanonicalDeserialize::deserialize_compressed` on `ark_bn254::G1Affine`: the element read is a
/// function of the bytes, and what `serialize_compressed` wrote of an element is read back.
#[verifier::external_body]
fn ark_g1_decompress(bytes: &[u8]) -> (r: Option<G1>)
    ensures
        r is Some <==> g1_decompressed(bytes@) is Some,
        r is Some ==> r->0@ == g1_decompressed(bytes@)->0,
        forall|k: int|
            0 <= k < modulus() && bytes@ == #[trigger] g1_compressed(g1_multiple(k)) ==> r is Some
                && r->0@ == g1_multiple(k),
{
    let p = G1Affine::deserialize_compressed(bytes).ok()?;
    Some(G1 { x: p.x.into_bigint().0, y: p.y.into_bigint().0, infinity: p.infinity })
}

impl G1 {
    /// The discrete logarithm.
    pub open spec fn log(&self) -> int {
        choose|k: int| is_g1_log(self@, k)
    }

    #[verifier::type_invariant]
    spec fn in_group(self) -> bool {
        exists|k: int| is_g1_log(self@, k)
    }

    pub fn generator_multiple(k: &Fr) -> (r: G1)
        ensures
            r.log() == k@,
            r@ == g1_multiple(k@),
    {
        ark_g1_generator_mul(k)
    }

    pub fn random() -> G1 {
        ark_g1_rand()
    }

    pub fn add(&self, other: &G1) -> (r: G1)
        ensures
            r.log() == (self.log() + other.log()) % modulus(),
    {
        ark_g1_add(self, other)
    }

    pub fn sub(&self, other: &G1) -> (r: G1)
        ensures
            r.log() == (self.log() - other.log()) % modulus(),
    {
        let r = ark_g1_add(self, &ark_g1_neg(other));
        proof {
            crate::math::lemma_reduced(-other.log());
            crate::math::lemma_cong_add(
                self.log(),
                self.log(),
                (-other.log()) % modulus(),
                -other.log(),
            );
        }
        r
    }

    pub fn mul(&self, k: &Fr) -> (r: G1)
        ensures
            r.log() == (self.log() * k@) % modulus(),
    {
        ark_g1_mul(self, k)
    }

    /// The sum of the bases, each times its scalar.
    pub fn msm(bases: &[G1], scalars: &[Fr]) -> (r: G1)
        requires
            bases@.len() == scalars@.len(),
        ensures
            r.log() == inner(vals(scalars@), g1_logs(bases@)) % modulus(),
    {
        ark_g1_msm(bases, scalars)
    }

    pub fn equals(&self, other: &G1) -> (r: bool)
        ensures
            r == (self.log() == other.log()),
            r == (self@ == other@),
            0 <= self.log() < modulus(),
            0 <= other.log() < modulus(),
    {
        proof {
            use_type_invariant(&*self);
            use_type_invariant(&*other);
        }
        let r = self.infinity == other.infinity && same_limbs(&self.x, &other.x) && same_limbs(
            &self.y,
            &other.y,
        );
        proof {
            assert(is_g1_log(self@, self.log()));
            assert(is_g1_log(other@, other.log()));
        }
        r
    }

    pub fn to_compressed(&self) -> (r: Vec<u8>)
        ensures
            r@ == g1_compressed(self@),
            r@.len() == 32,
            self@ == g1_multiple(self.log()),
            0 <= self.log() < modulus(),
    {
        proof {
            use_type_invariant(&*self);
            assert(is_g1_log(self@, self.log()));
        }
        ark_g1_compress(self)
    }

    /// Reads an element from its compressed bytes. What `to_compressed` wrote is read back.
    pub fn from_compressed(bytes: &[u8]) -> (r: Option<G1>)
        ensures
            r is Some <==> g1_decompressed(bytes@) is Some,
            r is Some ==> r->0@ == g1_decompressed(bytes@)->0,
            forall|k: int|
                0 <= k < modulus() && bytes@ == #[trigger] g1_compressed(g1_multiple(k))
                    ==> r is Some && r->0@ == g1_multiple(k),
    {
        ark_g1_decompress(bytes)
    }
}

impl G2 {
    /// The discrete logarithm.
    pub open spec fn log(&self) -> int {
        choose|k: int| is_g2_log(self@, k)
    }

    #[verifier::type_invariant]
    spec fn in_group(self) -> bool {
        exists|k: int| is_g2_log(self@, k)
    }

    pub fn generator_multiple(k: &Fr) -> (r: G2)
        ensures
            r.log() == k@,
            r@ == g2_multiple(k@),
    {
        ark_g2_generator_mul(k)
    }

    pub fn random() -> G2 {
        ark_g2_rand()
    }

    pub fn mul(&self, k: &Fr) -> (r: G2)
        ensures
            r.log() == (self.log() * k@) % modulus(),
    {
        ark_g2_mul(self, k)
    }
}

impl Gt {
    /// The discrete logarithm.
    pub open spec fn log(&self) -> int {
        choose|k: int| is_gt_log(self@, k)
    }

    #[verifier::type_invariant]
    spec fn in_group(self) -> bool {
        exists|k: int| is_gt_log(self@, k)
    }

    /// The product of the pairings of the elements, pair by pair.
    pub fn multi_pairing(a: &[G1], b: &[G2]) -> (r: Gt)
        requires
            a@.len() == b@.len(),
        ensures
            r.log() == inner(g1_logs(a@), g2_logs(b@)) % modulus(),
    {
        ark_multi_pairing(a, b)
    }

    /// The pairing of two elements.
    pub fn pairing(a: &G1, b: &G2) -> (r: Gt)
        ensures
            r.log() == (a.log() * b.log()) % modulus(),
    {
        let mut p: Vec<G1> = Vec::new();
        p.push(*a);
        let mut q: Vec<G2> = Vec::new();
        q.push(*b);
        proof {
            let u = g1_logs(p@);
            let w = g2_logs(q@);
            let f = |i: int| u[i] * w[i];
            assert(sum_to(f, 1) == sum_to(f, 0) + f(0));
            assert(u[0] == a.log() && w[0] == b.log());
            assert(inner(u, w) == sum_to(f, 1));
        }
        ark_multi_pairing(p.as_slice(), q.as_slice())
    }

    pub fn equals(&self, other: &Gt) -> (r: bool)
        ensures
            r == (self.log() == other.log()),
            r == (self@ == other@),
    {
        proof {
            use_type_invariant(&*self);
            use_type_invariant(&*other);
            assert(is_gt_log(self@, self.log()));
            assert(is_gt_log(other@, other.log()));
        }
        if self.coefficients.len() != other.coefficients.len() {
            return false;
        }
        let mut i: usize = 0;
        while i < self.coefficients.len()
            invariant
                i <= self.coefficients@.len(),
                self.coefficients@.len() == other.coefficients@.len(),
                forall|j: int| 0 <= j < i ==> self.coefficients@[j] == other.coefficients@[j],
                is_gt_log(self@, self.log()),
                is_gt_log(other@, other.log()),
            decreases self.coefficients.len() - i,
        {
            if self.coefficients[i] != other.coefficients[i] {
                return false;
            }
            i += 1;
        }
        assert(self.coefficients@ =~= other.coefficients@);
        true
    }
}

fn same_limbs(a: &[u64; 4], b: &[u64; 4]) -> (r: bool)
    ensures
        r == (a@ == b@),
{
    let r = a[0] == b[0] && a[1] == b[1] && a[2] == b[2] && a[3] == b[3];
    assert(r ==> a@ =~= b@);
    r
}

/// Some field element.
pub fn random_scalar() -> Fr {
    ark_fr_rand()
}

} // verus!
