//! The BN254 scalar field.
//!
//! An element is held as its canonical integer in four 64-bit limbs. The arithmetic is that of
//! `ark_bn254::Fr`; each operation is tied to integer arithmetic modulo the field's order.
use ark_ff::{BigInt, Field, PrimeField};
use ark_serialize::CanonicalSerialize;
use vstd::arithmetic::div_mod::{lemma_mod_bound, lemma_mod_twice, lemma_small_mod};
use vstd::prelude::*;

verus! {

/// The order of the BN254 scalar field.
#[verifier::opaque]
pub open spec fn modulus() -> int {
    21888242871839275222246405745257275088548364400416034343698204186575808495617int
}

pub proof fn lemma_modulus_bounds()
    ensures
        modulus() > 0x1_0000_0000_0000_0000_0000_0000_0000_0000,
{
    reveal(modulus);
}

/// The integer that four little-endian 64-bit limbs stand for.
pub open spec fn limbs_value(limbs: [u64; 4]) -> int {
    limbs@[0] + 0x1_0000_0000_0000_0000 * limbs@[1]
        + 0x1_0000_0000_0000_0000_0000_0000_0000_0000 * limbs@[2]
        + 0x1_0000_0000_0000_0000_0000_0000_0000_0000_0000_0000_0000_0000 * limbs@[3]
}

proof fn lemma_digit(lo1: int, hi1: int, lo2: int, hi2: int)
    requires
        lo1 + 0x1_0000_0000_0000_0000 * hi1 == lo2 + 0x1_0000_0000_0000_0000 * hi2,
        0 <= lo1 < 0x1_0000_0000_0000_0000,
        0 <= lo2 < 0x1_0000_0000_0000_0000,
    ensures
        lo1 == lo2,
        hi1 == hi2,
{
}

/// Four limbs are determined by the integer that they stand for.
proof fn lemma_limbs_unique(a: [u64; 4], b: [u64; 4])
    requires
        limbs_value(a) == limbs_value(b),
    ensures
        a@[0] == b@[0],
        a@[1] == b@[1],
        a@[2] == b@[2],
        a@[3] == b@[3],
{
    let b64 = 0x1_0000_0000_0000_0000int;
    let (a2, b2) = (a@[2] + b64 * a@[3], b@[2] + b64 * b@[3]);
    let (a1, b1) = (a@[1] + b64 * a2, b@[1] + b64 * b2);
    lemma_digit(a@[0] as int, a1, b@[0] as int, b1);
    lemma_digit(a@[1] as int, a2, b@[1] as int, b2);
    lemma_digit(a@[2] as int, a@[3] as int, b@[2] as int, b@[3] as int);
}

/// Limbs that stand for an integer below the field's order.
pub open spec fn canonical(limbs: [u64; 4]) -> bool {
    limbs_value(limbs) < modulus()
}

/// The integer that little-endian bytes stand for.
pub open spec fn le_bytes_value(bytes: Seq<u8>) -> int
    decreases bytes.len(),
{
    if bytes.len() == 0 {
        0
    } else {
        bytes[0] + 256 * le_bytes_value(bytes.skip(1))
    }
}

/// Field addition of `ark_bn254::Fr`: the sum of the two integers modulo the order.
#[verifier::external_body]
fn ark_add(a: [u64; 4], b: [u64; 4]) -> (r: [u64; 4])
    requires
        canonical(a),
        canonical(b),
    ensures
        canonical(r),
        limbs_value(r) == (limbs_value(a) + limbs_value(b)) % modulus(),
{
    let x = ark_bn254::Fr::new(BigInt(a));
    let y = ark_bn254::Fr::new(BigInt(b));
    (x + y).into_bigint().0
}

/// Field subtraction of `ark_bn254::Fr`: the difference of the two integers modulo the order.
#[verifier::external_body]
fn ark_sub(a: [u64; 4], b: [u64; 4]) -> (r: [u64; 4])
    requires
        canonical(a),
        canonical(b),
    ensures
        canonical(r),
        limbs_value(r) == (limbs_value(a) - limbs_value(b)) % modulus(),
{
    let x = ark_bn254::Fr::new(BigInt(a));
    let y = ark_bn254::Fr::new(BigInt(b));
    (x - y).into_bigint().0
}

/// Field multiplication of `ark_bn254::Fr`: the product of the two integers modulo the order,
/// which is zero only where one of them is.
#[verifier::external_body]
fn ark_mul(a: [u64; 4], b: [u64; 4]) -> (r: [u64; 4])
    requires
        canonical(a),
        canonical(b),
    ensures
        canonical(r),
        limbs_value(r) == (limbs_value(a) * limbs_value(b)) % modulus(),
        limbs_value(r) == 0 <==> limbs_value(a) == 0 || limbs_value(b) == 0,
{
    let x = ark_bn254::Fr::new(BigInt(a));
    let y = ark_bn254::Fr::new(BigInt(b));
    (x * y).into_bigint().0
}

/// `ark_ff::Field::inverse` on `ark_bn254::Fr`: nothing for zero, and for any other element the
/// element whose product with it is one.
#[verifier::external_body]
fn ark_inverse(a: [u64; 4]) -> (r: Option<[u64; 4]>)
    requires
        canonical(a),
    ensures
        r is None <==> limbs_value(a) == 0,
        r is Some ==> canonical(r->0) && (limbs_value(a) * limbs_value(r->0)) % modulus() == 1,
{
    let x = ark_bn254::Fr::new(BigInt(a));
    x.inverse().map(|y| y.into_bigint().0)
}

/// `From<i128>` of `ark_bn254::Fr`: the integer modulo the order.
#[verifier::external_body]
fn ark_from_i128(n: i128) -> (r: [u64; 4])
    ensures
        canonical(r),
        limbs_value(r) == n as int % modulus(),
{
    ark_bn254::Fr::from(n).into_bigint().0
}

/// `ark_ff::PrimeField::from_le_bytes_mod_order` on `ark_bn254::Fr`: the integer that the bytes
/// stand for, lowest byte first, modulo the order.
#[verifier::external_body]
fn ark_from_le_bytes_mod_order(bytes: &[u8]) -> (r: [u64; 4])
    ensures
        canonical(r),
        limbs_value(r) == le_bytes_value(bytes@) % modulus(),
{
    ark_bn254::Fr::from_le_bytes_mod_order(bytes).into_bigint().0
}

/// `ark_serialize::CanonicalSerialize::serialize_uncompressed` on `ark_bn254::Fr`: the canonical
/// integer in 32 little-endian bytes.
#[verifier::external_body]
fn ark_serialize_uncompressed(a: [u64; 4]) -> (r: Vec<u8>)
    requires
        canonical(a),
    ensures
        r@.len() == 32,
        le_bytes_value(r@) == limbs_value(a),
{
    let mut bytes = Vec::new();
    ark_bn254::Fr::new(BigInt(a)).serialize_uncompressed(&mut bytes).unwrap();
    bytes
}

/// What the proof system asks of its field.
pub trait CryptoField: Sized + Copy {
    /// The integer that the element stands for.
    spec fn value(self) -> int;

    /// The field's order.
    spec fn order() -> int;

    fn zero() -> (r: Self)
        ensures
            r.value() == 0,
    ;

    fn one() -> (r: Self)
        ensures
            r.value() == 1,
    ;

    fn from_u32(n: u32) -> (r: Self)
        ensures
            r.value() == n as int % Self::order(),
    ;

    /// The integer in the first 32 bytes, missing bytes taken as zero, modulo the order.
    fn from_bytes_le(bytes: &[u8]) -> (r: Self)
        ensures
            r.value() == le_bytes_value(
                bytes@.take(
                    if bytes@.len() < 32 {
                        bytes@.len() as int
                    } else {
                        32
                    },
                ),
            ) % Self::order(),
    ;

    /// The canonical integer in 32 little-endian bytes.
    fn to_bytes_le(&self) -> (r: Vec<u8>)
        ensures
            r@.len() == 32,
            le_bytes_value(r@) == self.value(),
    ;

    /// The multiplicative inverse; zero for zero.
    fn invert(&self) -> (r: Self)
        ensures
            self.value() == 0 ==> r.value() == 0,
            self.value() != 0 ==> (self.value() * r.value()) % Self::order() == 1,
            0 <= r.value() < Self::order(),
    ;
}

/// An element of the BN254 scalar field.
#[derive(Clone, Copy, Debug, PartialEq, Eq)]
pub struct Fr {
    limbs: [u64; 4],
}

impl View for Fr {
    type V = int;

    closed spec fn view(&self) -> int {
        limbs_value(self.limbs) % modulus()
    }
}

/// The integers that the elements of a sequence stand for.
pub open spec fn vals(s: Seq<Fr>) -> Seq<int> {
    s.map_values(|x: Fr| x@)
}

pub proof fn lemma_vals_push(s: Seq<Fr>, x: Fr)
    ensures
        vals(s.push(x)) == vals(s).push(x@),
{
    assert(vals(s.push(x)) =~= vals(s).push(x@));
}

pub proof fn lemma_fr_range(x: Fr)
    ensures
        0 <= x@ < modulus(),
        x@ % modulus() == x@,
{
    lemma_modulus_bounds();
    lemma_mod_bound(limbs_value(x.limbs), modulus());
    lemma_mod_twice(limbs_value(x.limbs), modulus());
}

impl Fr {
    #[verifier::type_invariant]
    spec fn is_canonical(self) -> bool {
        canonical(self.limbs)
    }

    proof fn lemma_view(limbs: [u64; 4])
        requires
            canonical(limbs),
        ensures
            limbs_value(limbs) % modulus() == limbs_value(limbs),
    {
        lemma_modulus_bounds();
        assert(limbs_value(limbs) >= 0);
        lemma_small_mod(limbs_value(limbs) as nat, modulus() as nat);
    }

    pub fn add(self, other: Fr) -> (r: Fr)
        ensures
            r@ == (self@ + other@) % modulus(),
    {
        proof {
            use_type_invariant(&self);
            use_type_invariant(&other);
            Fr::lemma_view(self.limbs);
            Fr::lemma_view(other.limbs);
        }
        let limbs = ark_add(self.limbs, other.limbs);
        proof {
            Fr::lemma_view(limbs);
        }
        Fr { limbs }
    }

    pub fn sub(self, other: Fr) -> (r: Fr)
        ensures
            r@ == (self@ - other@) % modulus(),
    {
        proof {
            use_type_invariant(&self);
            use_type_invariant(&other);
            Fr::lemma_view(self.limbs);
            Fr::lemma_view(other.limbs);
        }
        let limbs = ark_sub(self.limbs, other.limbs);
        proof {
            Fr::lemma_view(limbs);
        }
        Fr { limbs }
    }

    pub fn mul(self, other: Fr) -> (r: Fr)
        ensures
            r@ == (self@ * other@) % modulus(),
            r@ == 0 <==> self@ == 0 || other@ == 0,
    {
        proof {
            use_type_invariant(&self);
            use_type_invariant(&other);
            Fr::lemma_view(self.limbs);
            Fr::lemma_view(other.limbs);
        }
        let limbs = ark_mul(self.limbs, other.limbs);
        proof {
            Fr::lemma_view(limbs);
        }
        Fr { limbs }
    }

    /// The element that a signed integer stands for.
    pub fn from_i128(n: i128) -> (r: Fr)
        ensures
            r@ == n as int % modulus(),
    {
        let limbs = ark_from_i128(n);
        proof {
            Fr::lemma_view(limbs);
        }
        Fr { limbs }
    }

    /// The element that an unsigned integer stands for.
    pub fn from_u64(n: u64) -> (r: Fr)
        ensures
            r@ == n,
    {
        proof {
            lemma_modulus_bounds();
            lemma_small_mod(n as nat, modulus() as nat);
        }
        Fr::from_i128(n as i128)
    }

    pub fn equals(&self, other: &Fr) -> (r: bool)
        ensures
            r == (self@ == other@),
    {
        proof {
            use_type_invariant(&*self);
            use_type_invariant(&*other);
            Fr::lemma_view(self.limbs);
            Fr::lemma_view(other.limbs);
            if limbs_value(self.limbs) == limbs_value(other.limbs) {
                lemma_limbs_unique(self.limbs, other.limbs);
            }
        }
        self.limbs[0] == other.limbs[0] && self.limbs[1] == other.limbs[1] && self.limbs[2]
            == other.limbs[2] && self.limbs[3] == other.limbs[3]
    }

    pub(crate) fn limbs(&self) -> (r: [u64; 4])
        ensures
            canonical(r),
            limbs_value(r) == self@,
    {
        proof {
            use_type_invariant(&*self);
            Fr::lemma_view(self.limbs);
        }
        self.limbs
    }

    pub(crate) fn from_limbs(limbs: [u64; 4]) -> (r: Fr)
        requires
            canonical(limbs),
        ensures
            r@ == limbs_value(limbs),
    {
        proof {
            Fr::lemma_view(limbs);
        }
        Fr { limbs }
    }

    /// `n` copies of one element.
    pub fn repeat(x: Fr, n: usize) -> (r: Vec<Fr>)
        ensures
            r@ == Seq::new(n as nat, |i: int| x),
    {
        let mut r: Vec<Fr> = Vec::with_capacity(n);
        let mut i: usize = 0;
        while i < n
            invariant
                i <= n,
                r@ == Seq::new(i as nat, |i: int| x),
            decreases n - i,
        {
            r.push(x);
            i += 1;
        }
        r
    }

    /// A copy of a slice of elements.
    pub fn copy_of(s: &[Fr]) -> (r: Vec<Fr>)
        ensures
            r@ == s@,
    {
        let mut r: Vec<Fr> = Vec::with_capacity(s.len());
        let mut i: usize = 0;
        while i < s.len()
            invariant
                i <= s.len(),
                r@ == s@.take(i as int),
            decreases s.len() - i,
        {
            r.push(s[i]);
            i += 1;
        }
        r
    }
}

impl CryptoField for Fr {
    open spec fn value(self) -> int {
        self@
    }

    open spec fn order() -> int {
        modulus()
    }

    fn zero() -> (r: Fr)
        ensures
            r@ == 0,
    {
        let r = Fr::from_u64(0);
        assert(r.value() == r@);
        r
    }

    fn one() -> (r: Fr)
        ensures
            r@ == 1,
    {
        let r = Fr::from_u64(1);
        assert(r.value() == r@);
        r
    }

    fn from_u32(n: u32) -> (r: Fr)
        ensures
            r@ == n,
    {
        proof {
            lemma_modulus_bounds();
            lemma_small_mod(n as nat, modulus() as nat);
        }
        Fr::from_u64(n as u64)
    }

    fn from_bytes_le(bytes: &[u8]) -> (r: Fr) {
        let n: usize = if bytes.len() < 32 {
            bytes.len()
        } else {
            32
        };
        let mut padded: Vec<u8> = Vec::new();
        let mut i: usize = 0;
        while i < 32
            invariant
                i <= 32,
                n <= bytes.len(),
                n <= 32,
                padded.len() == i,
                forall|j: int| 0 <= j < i ==> padded@[j] == (if j < n {
                    bytes@[j]
                } else {
                    0
                }),
            decreases 32 - i,
        {
            if i < n {
                padded.push(bytes[i]);
            } else {
                padded.push(0);
            }
            i += 1;
        }
        proof {
            lemma_le_bytes_zeros(padded@, n as int);
            assert(padded@.take(n as int) =~= bytes@.take(n as int));
        }
        let limbs = ark_from_le_bytes_mod_order(padded.as_slice());
        proof {
            Fr::lemma_view(limbs);
        }
        Fr { limbs }
    }

    fn to_bytes_le(&self) -> (r: Vec<u8>) {
        ark_serialize_uncompressed(self.limbs())
    }

    fn invert(&self) -> (r: Fr) {
        proof {
            lemma_modulus_bounds();
        }
        match ark_inverse(self.limbs()) {
            Some(limbs) => Fr::from_limbs(limbs),
            None => Fr::from_u64(0),
        }
    }
}

/// Zero bytes at the high end do not change the integer.
pub proof fn lemma_le_bytes_zeros(bytes: Seq<u8>, n: int)
    requires
        0 <= n <= bytes.len(),
        forall|i: int| n <= i < bytes.len() ==> bytes[i] == 0,
    ensures
        le_bytes_value(bytes) == le_bytes_value(bytes.take(n)),
    decreases bytes.len(),
{
    if bytes.len() == 0 {
        assert(bytes.take(n) =~= bytes);
    } else if n == 0 {
        lemma_le_bytes_zeros(bytes.skip(1), 0);
        assert(bytes.skip(1).take(0) =~= bytes.take(0));
    } else {
        lemma_le_bytes_zeros(bytes.skip(1), n - 1);
        assert(bytes.skip(1).take(n - 1) =~= bytes.take(n).skip(1));
    }
}

/// Reading an element back from its bytes gives the element.
pub proof fn lemma_bytes_round_trip(x: Fr, bytes: Seq<u8>)
    requires
        bytes.len() == 32,
        le_bytes_value(bytes) == x@,
    ensures
        le_bytes_value(bytes.take(32)) % modulus() == x@,
{
    lemma_fr_range(x);
    assert(bytes.take(32) =~= bytes);
}

} // verus!
