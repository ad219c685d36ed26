//! The Fiat-Shamir transcript.
use crate::field::{le_bytes_value, modulus, vals, CryptoField, Fr};
use crate::poly::degree::invertible;
use ark_crypto_primitives::sponge::poseidon::{
    find_poseidon_ark_and_mds, PoseidonConfig, PoseidonSponge,
};
use ark_crypto_primitives::sponge::{CryptographicSponge, FieldBasedCryptographicSponge};
use ark_ff::BigInt;
use ark_ff::PrimeField;
use vstd::prelude::*;
use vstd::utf8::encode_utf8;

verus! {

/// The number of elements that the sponge takes in at once.
pub const RATE: usize = 2;

/// The number of elements of the sponge that no input reaches.
pub const CAPACITY: usize = 1;

/// The number of full rounds of the sponge.
pub const FULL_ROUNDS: usize = 8;

/// The number of partial rounds of the sponge.
pub const PARTIAL_ROUNDS: usize = 57;

/// The exponent of the sponge's power map.
pub const EXPONENT: u64 = 5;

/// The number of matrices that the generator of the sponge's constants passes over.
pub const SKIPPED: u64 = 0;

/// What `PoseidonSponge` squeezes first after it has absorbed the given field elements, with the
/// given rate, capacity, numbers of full and of partial rounds, exponent and number of matrices
/// passed over.
pub uninterp spec fn poseidon_output(
    absorbed: Seq<int>,
    rate: int,
    capacity: int,
    full_rounds: int,
    partial_rounds: int,
    exponent: int,
    skipped: int,
) -> int;

/// `ark_crypto_primitives`' `PoseidonSponge` over `ark_bn254::Fr`, with the constants that its
/// generator finds for the given sizes: a fresh sponge absorbs the elements and squeezes one. The
/// first element squeezed is a function of those absorbed and of the sizes, and as an element of a
/// field it is zero or has an inverse (`ark_ff::Field::inverse`). The generator has no matrix for
/// some sizes; it has one for those that are asked for here.
#[verifier::external_body]
fn poseidon_squeeze(
    absorbed: &Vec<Fr>,
    rate: usize,
    capacity: usize,
    full_rounds: usize,
    partial_rounds: usize,
    exponent: u64,
    skipped: u64,
) -> (r: Fr)
    requires
        rate == RATE,
        capacity == CAPACITY,
        full_rounds == FULL_ROUNDS,
        partial_rounds == PARTIAL_ROUNDS,
        exponent == EXPONENT,
        skipped == SKIPPED,
    ensures
        r@ == poseidon_output(
            vals(absorbed@),
            rate as int,
            capacity as int,
            full_rounds as int,
            partial_rounds as int,
            exponent as int,
            skipped as int,
        ),
        r@ != 0 ==> invertible(r@),
{
    let bits = ark_bn254::Fr::MODULUS_BIT_SIZE as u64;
    let (full, partial) = (full_rounds as u64, partial_rounds as u64);
    let (ark, mds) =
        find_poseidon_ark_and_mds::<ark_bn254::Fr>(bits, rate, full, partial, skipped);
    let config =
        PoseidonConfig::new(full_rounds, partial_rounds, exponent, mds, ark, rate, capacity);
    let mut sponge = PoseidonSponge::new(&config);
    let elements: Vec<ark_bn254::Fr> =
        absorbed.iter().map(|x| ark_bn254::Fr::new(BigInt(x.limbs()))).collect();
    sponge.absorb(&elements);
    Fr::from_limbs(sponge.squeeze_native_field_elements(1)[0].into_bigint().0)
}

/// The field element that stands for a label: the integer in its first 32 bytes.
pub open spec fn label_value(label: Seq<char>) -> int {
    let bytes = encode_utf8(label);
    le_bytes_value(
        bytes.take(
            if bytes.len() < 32 {
                bytes.len() as int
            } else {
                32
            },
        ),
    ) % modulus()
}

/// The log of a transcript after one value has been appended under a label.
pub open spec fn appended(log: Seq<int>, label: Seq<char>, value: int) -> Seq<int> {
    log.push(label_value(label)).push(value)
}

/// The log of a transcript after a challenge has been drawn under a label.
pub open spec fn drawn(log: Seq<int>, label: Seq<char>) -> Seq<int> {
    log.push(label_value(label))
}

/// The challenge that a transcript gives under a label.
pub open spec fn challenge(log: Seq<int>, label: Seq<char>) -> int {
    poseidon_output(
        drawn(log, label),
        RATE as int,
        CAPACITY as int,
        FULL_ROUNDS as int,
        PARTIAL_ROUNDS as int,
        EXPONENT as int,
        SKIPPED as int,
    )
}

/// A record of everything that prover and verifier have exchanged, from which the challenges are
/// derived.
#[derive(Debug)]
pub struct Transcript {
    log: Vec<Fr>,
}

impl View for Transcript {
    type V = Seq<int>;

    closed spec fn view(&self) -> Seq<int> {
        vals(self.log@)
    }
}

impl Transcript {
    pub fn new(label: &str) -> (r: Transcript)
        ensures
            r@ == seq![label_value(label@)],
    {
        let mut log: Vec<Fr> = Vec::new();
        log.push(Fr::from_bytes_le(label.as_bytes()));
        assert(vals(log@) =~= seq![label_value(label@)]);
        Transcript { log }
    }

    pub fn append_u64(&mut self, label: &str, x: u64)
        ensures
            final(self)@ == appended(old(self)@, label@, x as int),
    {
        self.log.push(Fr::from_bytes_le(label.as_bytes()));
        self.log.push(Fr::from_u64(x));
        assert(vals(self.log@) =~= appended(old(self)@, label@, x as int));
    }

    pub fn append_scalar(&mut self, label: &str, x: &Fr)
        ensures
            final(self)@ == appended(old(self)@, label@, x@),
    {
        self.log.push(Fr::from_bytes_le(label.as_bytes()));
        self.log.push(*x);
        assert(vals(self.log@) =~= appended(old(self)@, label@, x@));
    }

    pub fn challenge_scalar(&mut self, label: &str) -> (r: Fr)
        ensures
            r@ == challenge(old(self)@, label@),
            r@ != 0 ==> invertible(r@),
            final(self)@ == drawn(old(self)@, label@),
    {
        self.log.push(Fr::from_bytes_le(label.as_bytes()));
        assert(vals(self.log@) =~= drawn(old(self)@, label@));
        poseidon_squeeze(
            &self.log,
            RATE,
            CAPACITY,
            FULL_ROUNDS,
            PARTIAL_ROUNDS,
            EXPONENT,
            SKIPPED,
        )
    }
}

} // verus!
