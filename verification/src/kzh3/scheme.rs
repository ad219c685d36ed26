//! Commitments with their keys, and the linear operations on them.
use crate::curve::{g1_compressed, g1_decompressed, g1_logs, g1_multiple, inner, G1, G2};
use crate::field::{le_bytes_value, modulus, vals, CryptoField, Fr};
use crate::kzh3::{
    committable, commitment_log, get_degree_from_maximum_supported_degree, kzh3_commit, kzh3_open,
    kzh3_verify, lemma_log_of, lemma_sizes, opening_ok, setup_kzh3_srs, shaped, slice_logs,
    split_input, star_table, whole_table, y_commitment_log, y_slice_logs, z_part, KZH3Aux,
    KZH3Opening, KZH3SRS,
};
use crate::math::{
    lemma_cong_add, lemma_cong_mul, lemma_reduced, lemma_sum_add, lemma_sum_ext, lemma_sum_scale,
    sum_to, two_to,
};
use crate::mle::mle;
use crate::poly::bytes::{lemma_value_bound, lemma_value_push};
use crate::poly::dense::DenseMLPoly;
use std::collections::HashMap;
use std::sync::Arc;
use vstd::arithmetic::power2::pow2;
use vstd::prelude::*;

verus! {

broadcast use vstd::std_specs::hash::group_hash_axioms;

/// A commitment with the parameters it was made with and what an opening of it needs.
#[derive(Debug)]
pub struct KZH3Commitment {
    pub srs: Arc<KZH3SRS>,
    pub c: G1,
    pub aux: KZH3Aux,
}

/// Parameters by number of variables, for committing.
#[derive(Debug)]
pub struct KZH3CommitKey {
    pub srs_map: Arc<HashMap<usize, Arc<KZH3SRS>>>,
}

/// Parameters by number of variables, for verifying.
#[derive(Debug)]
pub struct KZH3VerifierKey {
    pub srs_map: Arc<HashMap<usize, Arc<KZH3SRS>>>,
}

/// The scheme.
#[derive(Debug)]
pub struct KZH3Commit;

/// Entrywise sums, reduced.
pub open spec fn sums(a: Seq<int>, b: Seq<int>) -> Seq<int> {
    Seq::new(a.len(), |i: int| (a[i] + b[i]) % modulus())
}

/// Entrywise differences, reduced.
pub open spec fn differences(a: Seq<int>, b: Seq<int>) -> Seq<int> {
    Seq::new(a.len(), |i: int| (a[i] - b[i]) % modulus())
}

/// Entrywise multiples, reduced.
pub open spec fn multiples(a: Seq<int>, r: int) -> Seq<int> {
    Seq::new(a.len(), |i: int| (a[i] * r) % modulus())
}

impl KZH3Aux {
    /// Multiplies every element by a scalar.
    pub fn scale_by_r(&mut self, r: &Fr)
        ensures
            g1_logs(final(self).d_x@) =~= multiples(g1_logs(old(self).d_x@), r@),
    {
        let ghost before = self.d_x@;
        let mut i: usize = 0;
        while i < self.d_x.len()
            invariant
                i <= self.d_x@.len(),
                self.d_x@.len() == before.len(),
                forall|j: int|
                    0 <= j < i ==> (#[trigger] self.d_x@[j]).log() == (before[j].log() * r@)
                        % modulus(),
                forall|j: int| i <= j < before.len() ==> self.d_x@[j] == before[j],
            decreases self.d_x.len() - i,
        {
            let scaled = self.d_x[i].mul(r);
            self.d_x.set(i, scaled);
            i += 1;
        }
    }

    /// No elements.
    pub fn dummy() -> (r: KZH3Aux)
        ensures
            r.d_x@ == Seq::<G1>::empty(),
    {
        KZH3Aux { d_x: Vec::new() }
    }

    pub fn add(self, other: KZH3Aux) -> (r: KZH3Aux)
        requires
            self.d_x@.len() == other.d_x@.len(),
        ensures
            g1_logs(r.d_x@) =~= sums(g1_logs(self.d_x@), g1_logs(other.d_x@)),
    {
        let mut d_x: Vec<G1> = Vec::with_capacity(self.d_x.len());
        let mut i: usize = 0;
        while i < self.d_x.len()
            invariant
                i <= self.d_x@.len(),
                self.d_x@.len() == other.d_x@.len(),
                d_x@.len() == i,
                forall|j: int|
                    0 <= j < i ==> (#[trigger] d_x@[j]).log() == (self.d_x@[j].log()
                        + other.d_x@[j].log()) % modulus(),
            decreases self.d_x.len() - i,
        {
            d_x.push(self.d_x[i].add(&other.d_x[i]));
            i += 1;
        }
        KZH3Aux { d_x }
    }

    pub fn sub(self, other: KZH3Aux) -> (r: KZH3Aux)
        requires
            self.d_x@.len() == other.d_x@.len(),
        ensures
            g1_logs(r.d_x@) =~= differences(g1_logs(self.d_x@), g1_logs(other.d_x@)),
    {
        let mut d_x: Vec<G1> = Vec::with_capacity(self.d_x.len());
        let mut i: usize = 0;
        while i < self.d_x.len()
            invariant
                i <= self.d_x@.len(),
                self.d_x@.len() == other.d_x@.len(),
                d_x@.len() == i,
                forall|j: int|
                    0 <= j < i ==> (#[trigger] d_x@[j]).log() == (self.d_x@[j].log()
                        - other.d_x@[j].log()) % modulus(),
            decreases self.d_x.len() - i,
        {
            d_x.push(self.d_x[i].sub(&other.d_x[i]));
            i += 1;
        }
        KZH3Aux { d_x }
    }

    pub fn mul(self, scalar: Fr) -> (r: KZH3Aux)
        ensures
            g1_logs(r.d_x@) =~= multiples(g1_logs(self.d_x@), scalar@),
    {
        let mut aux = self;
        aux.scale_by_r(&scalar);
        aux
    }
}

/// Two commitments are equal when their points are.
impl PartialEq for KZH3Commitment {
    fn eq(&self, other: &Self) -> (r: bool) {
        self.c.equals(&other.c)
    }
}

impl vstd::std_specs::cmp::PartialEqSpecImpl for KZH3Commitment {
    open spec fn obeys_eq_spec() -> bool {
        true
    }

    open spec fn eq_spec(&self, other: &Self) -> bool {
        self.c@ == other.c@
    }
}

impl Eq for KZH3Commitment {

}

/// `n` copies of an element.
fn repeat<T: Copy>(x: T, n: usize) -> (r: Vec<T>)
    ensures
        r@ == Seq::new(n as nat, |i: int| x),
{
    let mut r: Vec<T> = Vec::with_capacity(n);
    let mut i: usize = 0;
    while i < n
        invariant
            i <= n,
            r@ == Seq::new(i as nat, |i: int| x),
        decreases n - i,
    {
        r.push(x);
        i += 1;
    }
    r
}

/// Every element of the parameters is the identity.
pub open spec fn all_identity(srs: &KZH3SRS) -> bool {
    &&& forall|i: int| 0 <= i < srs.h_xyz@.len() ==> (#[trigger] srs.h_xyz@[i]).log() == 0
    &&& forall|i: int| 0 <= i < srs.h_yz@.len() ==> (#[trigger] srs.h_yz@[i]).log() == 0
    &&& forall|i: int| 0 <= i < srs.h_z@.len() ==> (#[trigger] srs.h_z@[i]).log() == 0
    &&& forall|i: int| 0 <= i < srs.v_x@.len() ==> (#[trigger] srs.v_x@[i]).log() == 0
    &&& forall|i: int| 0 <= i < srs.v_y@.len() ==> (#[trigger] srs.v_y@[i]).log() == 0
    &&& forall|i: int| 0 <= i < srs.v_z@.len() ==> (#[trigger] srs.v_z@[i]).log() == 0
    &&& srs.v.log() == 0
}

/// Parameters of the given sizes whose elements are all the identity.
fn identity_srs(x_log: usize, y_log: usize, z_log: usize) -> (srs: KZH3SRS)
    requires
        x_log + y_log + z_log < usize::BITS,
    ensures
        srs.sized(),
        srs.x_log() == x_log,
        srs.y_log() == y_log,
        srs.z_log() == z_log,
        all_identity(&srs),
{
    let degree_x = two_to(x_log);
    let degree_y = two_to(y_log);
    let degree_z = two_to(z_log);
    let yz = two_to(y_log + z_log);
    let xyz = two_to(x_log + y_log + z_log);
    proof {
        lemma_log_of(x_log as nat);
        lemma_log_of(y_log as nat);
        lemma_log_of(z_log as nat);
    }
    let zero = Fr::zero();
    let g = G1::generator_multiple(&zero);
    let v = G2::generator_multiple(&zero);
    KZH3SRS {
        degree_x,
        degree_y,
        degree_z,
        h_xyz: repeat(g, xyz),
        h_yz: repeat(g, yz),
        h_z: repeat(g, degree_z),
        v_x: repeat(v, degree_x),
        v_y: repeat(v, degree_y),
        v_z: repeat(v, degree_z),
        v,
    }
}

/// The smallest parameters, all of them the identity.
fn create_dummy_srs() -> (srs: Arc<KZH3SRS>)
    ensures
        srs.sized(),
        srs.total() == 0,
        all_identity(&*srs),
{
    Arc::new(identity_srs(0, 0, 0))
}

impl Default for KZH3Commitment {
    fn default() -> (r: Self)
        ensures
            r.c.log() == 0,
            r.aux.d_x@.len() == 0,
            r.srs.sized(),
            r.srs.total() == 0,
            all_identity(&*r.srs),
    {
        KZH3Commitment {
            srs: create_dummy_srs(),
            c: G1::generator_multiple(&Fr::zero()),
            aux: KZH3Aux::dummy(),
        }
    }
}

/// The bytes hold a point and a list of points, each compressed, the list after its length in eight
/// little-endian bytes.
pub open spec fn is_encoding(
    bytes: Seq<u8>,
    c: (Seq<u64>, Seq<u64>, bool),
    d_x: Seq<(Seq<u64>, Seq<u64>, bool)>,
) -> bool {
    &&& bytes.len() == 40 + 32 * d_x.len()
    &&& bytes.subrange(0, 32) == g1_compressed(c)
    &&& le_bytes_value(bytes.subrange(32, 40)) == d_x.len()
    &&& forall|i: int|
        0 <= i < d_x.len() ==> bytes.subrange(40 + 32 * i, 72 + 32 * i) == g1_compressed(
            #[trigger] d_x[i],
        )
}

/// The coordinates of a list of points.
pub open spec fn coordinates(s: Seq<G1>) -> Seq<(Seq<u64>, Seq<u64>, bool)> {
    s.map_values(|p: G1| p@)
}

/// The point read at a place, if there is one.
pub open spec fn point_at(bytes: Seq<u8>, at: int) -> Option<(Seq<u64>, Seq<u64>, bool)> {
    g1_decompressed(bytes.subrange(at, at + 32))
}

/// Bytes begin with a point and a list of points.
pub open spec fn readable(bytes: Seq<u8>) -> bool {
    &&& bytes.len() >= 40
    &&& point_at(bytes, 0) is Some
    &&& bytes.len() >= 40 + 32 * le_bytes_value(bytes.subrange(32, 40))
    &&& forall|i: int|
        0 <= i < le_bytes_value(bytes.subrange(32, 40)) ==> (#[trigger] point_at(
            bytes,
            40 + 32 * i,
        )) is Some
}

impl KZH3Commitment {
    pub fn add(self, other: KZH3Commitment) -> (r: KZH3Commitment)
        requires
            self.srs == other.srs,
            self.aux.d_x@.len() == other.aux.d_x@.len(),
        ensures
            r.srs == self.srs,
            r.c.log() == (self.c.log() + other.c.log()) % modulus(),
            g1_logs(r.aux.d_x@) =~= sums(g1_logs(self.aux.d_x@), g1_logs(other.aux.d_x@)),
    {
        KZH3Commitment {
            srs: self.srs,
            c: self.c.add(&other.c),
            aux: self.aux.add(other.aux),
        }
    }

    pub fn sub(self, other: KZH3Commitment) -> (r: KZH3Commitment)
        requires
            self.srs == other.srs,
            self.aux.d_x@.len() == other.aux.d_x@.len(),
        ensures
            r.srs == self.srs,
            r.c.log() == (self.c.log() - other.c.log()) % modulus(),
            g1_logs(r.aux.d_x@) =~= differences(g1_logs(self.aux.d_x@), g1_logs(other.aux.d_x@)),
    {
        KZH3Commitment {
            srs: self.srs,
            c: self.c.sub(&other.c),
            aux: self.aux.sub(other.aux),
        }
    }

    pub fn mul(self, scalar: Fr) -> (r: KZH3Commitment)
        ensures
            r.srs == self.srs,
            r.c.log() == (self.c.log() * scalar@) % modulus(),
            g1_logs(r.aux.d_x@) =~= multiples(g1_logs(self.aux.d_x@), scalar@),
    {
        KZH3Commitment { srs: self.srs, c: self.c.mul(&scalar), aux: self.aux.mul(scalar) }
    }

    /// The bytes by which a transcript is bound to the commitment.
    pub fn to_transcript_bytes(&self) -> (r: Vec<u8>)
        ensures
            r@ == g1_compressed(self.c@),
    {
        self.c.to_compressed()
    }

    pub fn serialized_size(&self) -> (r: usize)
        requires
            40 + 32 * self.aux.d_x@.len() <= usize::MAX,
        ensures
            r == 40 + 32 * self.aux.d_x@.len(),
    {
        40 + 32 * self.aux.d_x.len()
    }

    /// The point and the elements of the opening aid as bytes; the parameters are not written.
    pub fn serialize_compressed(&self) -> (r: Vec<u8>)
        ensures
            is_encoding(r@, self.c@, coordinates(self.aux.d_x@)),
    {
        let mut bytes = self.c.to_compressed();
        let n = self.aux.d_x.len();
        let mut rest: u64 = n as u64;
        let ghost first = bytes@;
        let ghost mut length: Seq<u8> = Seq::empty();
        let mut k: usize = 0;
        proof {
            vstd::arithmetic::power2::lemma2_to64();
            assert(8 * length.len() == 0);
            let m = n as int;
            assert(m * 1 == m) by (nonlinear_arith);
        }
        while k < 8
            invariant
                k <= 8,
                length.len() == k,
                bytes@ == first + length,
                le_bytes_value(length) + rest * pow2(8 * k as nat) == n,
            decreases 8 - k,
        {
            let byte = (rest % 256) as u8;
            bytes.push(byte);
            proof {
                lemma_value_push(length, byte);
                let p = pow2(8 * k as nat) as int;
                vstd::arithmetic::power2::lemma_pow2_adds(8 * k as nat, 8);
                vstd::arithmetic::power2::lemma2_to64();
                let q = (rest / 256) as int;
                let b = byte as int;
                assert((q * 256 + b) * p == b * p + q * (p * 256)) by (nonlinear_arith);
                length = length.push(byte);
            }
            rest = rest / 256;
            k += 1;
        }
        proof {
            vstd::arithmetic::power2::lemma2_to64_rest();
            lemma_value_bound(length);
            let p = pow2(64) as int;
            let q = rest as int;
            assert(q == 0) by (nonlinear_arith)
                requires
                    q >= 0,
                    q * p <= n,
                    n < p,
            ;
            assert(0 * p == 0) by (nonlinear_arith);
        }
        let ghost head = bytes@;
        let mut i: usize = 0;
        while i < self.aux.d_x.len()
            invariant
                i <= self.aux.d_x@.len(),
                head.len() == 40,
                bytes@.len() == 40 + 32 * i,
                bytes@.take(40) == head,
                forall|j: int|
                    0 <= j < i ==> bytes@.subrange(40 + 32 * j, 72 + 32 * j) == g1_compressed(
                        (#[trigger] self.aux.d_x@[j])@,
                    ),
            decreases self.aux.d_x.len() - i,
        {
            let point = self.aux.d_x[i].to_compressed();
            let ghost before = bytes@;
            let mut j: usize = 0;
            while j < point.len()
                invariant
                    j <= point@.len(),
                    bytes@ == before + point@.take(j as int),
                decreases point.len() - j,
            {
                bytes.push(point[j]);
                j += 1;
            }
            proof {
                assert(point@.take(point@.len() as int) =~= point@);
                assert(bytes@.take(40) =~= before.take(40));
                assert forall|j: int| 0 <= j < i + 1 implies bytes@.subrange(
                    40 + 32 * j,
                    72 + 32 * j,
                ) == g1_compressed((#[trigger] self.aux.d_x@[j])@) by {
                    if j < i {
                        assert(bytes@.subrange(40 + 32 * j, 72 + 32 * j) =~= before.subrange(
                            40 + 32 * j,
                            72 + 32 * j,
                        ));
                    } else {
                        assert(bytes@.subrange(40 + 32 * j, 72 + 32 * j) =~= point@);
                    }
                }
            }
            i += 1;
        }
        proof {
            assert(bytes@.subrange(0, 32) =~= bytes@.take(40).subrange(0, 32));
            assert(head.subrange(0, 32) =~= first);
            assert(bytes@.subrange(32, 40) =~= bytes@.take(40).subrange(32, 40));
            assert(head.subrange(32, 40) =~= length);
            let d = coordinates(self.aux.d_x@);
            assert forall|j: int| 0 <= j < d.len() implies bytes@.subrange(
                40 + 32 * j,
                72 + 32 * j,
            ) == g1_compressed(#[trigger] d[j]) by {
                assert(d[j] == self.aux.d_x@[j]@);
            }
        }
        bytes
    }

    /// Reads a point and an opening aid; the parameters of the result are the smallest ones.
    pub fn deserialize_compressed(bytes: &[u8]) -> (r: Option<KZH3Commitment>)
        ensures
            r is Some <==> readable(bytes@),
            r matches Some(v) ==> {
                &&& point_at(bytes@, 0) == Some(v.c@)
                &&& v.aux.d_x@.len() == le_bytes_value(bytes@.subrange(32, 40))
                &&& forall|i: int|
                    0 <= i < v.aux.d_x@.len() ==> (#[trigger] point_at(bytes@, 40 + 32 * i))
                        == Some(v.aux.d_x@[i]@)
                &&& v.srs.sized()
                &&& v.srs.total() == 0
                &&& all_identity(&*v.srs)
            },
            forall|k: int, d_x: Seq<(Seq<u64>, Seq<u64>, bool)>|
                0 <= k < modulus() && #[trigger] is_encoding(bytes@, g1_multiple(k), d_x)
                    && in_first_group(d_x) ==> r is Some && r->0.c@ == g1_multiple(k)
                    && coordinates(r->0.aux.d_x@) == d_x,
    {
        if bytes.len() < 40 {
            return None;
        }
        let c = G1::from_compressed(vstd::slice::slice_subrange(bytes, 0, 32));
        let mut n: u64 = 0;
        let mut k: usize = 8;
        let ghost length = bytes@.subrange(32, 40);
        proof {
            assert(length.skip(8) =~= Seq::<u8>::empty());
            vstd::arithmetic::power2::lemma2_to64_rest();
            vstd::arithmetic::power2::lemma2_to64();
        }
        while k > 0
            invariant
                k <= 8,
                bytes@.len() >= 40,
                length == bytes@.subrange(32, 40),
                n == le_bytes_value(length.skip(k as int)),
                pow2(64) == 0x10000000000000000,
            decreases k,
        {
            k -= 1;
            proof {
                let rest = length.skip(k as int);
                assert(rest.skip(1) =~= length.skip(k + 1));
                lemma_value_bound(rest);
                crate::math::lemma_pow2_mono(8 * rest.len(), 64);
            }
            n = bytes[32 + k] as u64 + 256 * n;
        }
        assert(length.skip(0) =~= length);
        let c = match c {
            None => {
                return None;
            },
            Some(c) => c,
        };
        let room = (bytes.len() - 40) / 32;
        if n > room as u64 {
            return None;
        }
        let count = n as usize;
        let mut d_x: Vec<G1> = Vec::new();
        let mut i: usize = 0;
        while i < count
            invariant
                i <= count,
                count == le_bytes_value(length),
                length == bytes@.subrange(32, 40),
                bytes@.len() >= 40 + 32 * count,
                bytes@.len() <= usize::MAX,
                d_x@.len() == i,
                forall|j: int|
                    0 <= j < i ==> (#[trigger] point_at(bytes@, 40 + 32 * j)) == Some(d_x@[j]@),
                forall|k: int, d: Seq<(Seq<u64>, Seq<u64>, bool)>|
                    0 <= k < modulus() && #[trigger] is_encoding(bytes@, g1_multiple(k), d)
                        && in_first_group(d) ==> forall|j: int|
                        0 <= j < i ==> (#[trigger] d[j]) == d_x@[j]@,
            decreases count - i,
        {
            let start = 40 + 32 * i;
            let piece = vstd::slice::slice_subrange(bytes, start, start + 32);
            assert(piece@ == bytes@.subrange(40 + 32 * i, 40 + 32 * i + 32));
            let point = G1::from_compressed(piece);
            proof {
                assert(point_at(bytes@, 40 + 32 * i) == g1_decompressed(piece@));
                assert forall|k: int, d: Seq<(Seq<u64>, Seq<u64>, bool)>|
                    0 <= k < modulus() && #[trigger] is_encoding(bytes@, g1_multiple(k), d)
                        && in_first_group(d) implies point is Some && d[i as int] == point->0@ by {
                    assert(d.len() == count);
                    assert(is_in_first_group(d[i as int]));
                    let m = choose|m: int|
                        0 <= m < modulus() && d[i as int] == #[trigger] g1_multiple(m);
                    assert(bytes@.subrange(40 + 32 * i, 72 + 32 * i) == g1_compressed(d[i as int]));
                    assert(piece@ == g1_compressed(g1_multiple(m)));
                }
            }
            match point {
                None => {
                    assert(point_at(bytes@, 40 + 32 * i) is None);
                    return None;
                },
                Some(p) => {
                    d_x.push(p);
                },
            }
            i += 1;
        }
        let r = KZH3Commitment { srs: create_dummy_srs(), c, aux: KZH3Aux { d_x } };
        proof {
            assert forall|k: int, d: Seq<(Seq<u64>, Seq<u64>, bool)>|
                0 <= k < modulus() && #[trigger] is_encoding(bytes@, g1_multiple(k), d)
                    && in_first_group(d) implies r.c@ == g1_multiple(k) && coordinates(
                r.aux.d_x@,
            ) == d by {
                assert(bytes@.subrange(0, 32) == g1_compressed(g1_multiple(k)));
                assert(coordinates(r.aux.d_x@) =~= d);
            }
        }
        Some(r)
    }
}

/// The coordinates are those of an element of the first group.
pub open spec fn is_in_first_group(p: (Seq<u64>, Seq<u64>, bool)) -> bool {
    exists|m: int| 0 <= m < modulus() && p == #[trigger] g1_multiple(m)
}

/// The coordinates are those of elements of the first group.
pub open spec fn in_first_group(d: Seq<(Seq<u64>, Seq<u64>, bool)>) -> bool {
    forall|i: int| 0 <= i < d.len() ==> is_in_first_group(#[trigger] d[i])
}

impl KZH3Commit {
    /// Parameters without any secret in them: every element is the identity. For benchmarks only.
    pub fn fake_setup(n: usize) -> (key: KZH3CommitKey)
        requires
            n < usize::BITS,
        ensures
            key.srs_map@.dom() == set![n],
            key.srs_map@[n].sized(),
            key.srs_map@[n].total() == n,
            key.srs_map@[n].x_log() >= key.srs_map@[n].y_log() >= key.srs_map@[n].z_log(),
            key.srs_map@[n].x_log() - key.srs_map@[n].z_log() <= 1,
            all_identity(&*key.srs_map@[n]),
    {
        let (x_log, y_log, z_log) = get_degree_from_maximum_supported_degree(n);
        let srs = identity_srs(x_log, y_log, z_log);
        let mut srs_map: HashMap<usize, Arc<KZH3SRS>> = HashMap::new();
        srs_map.insert(n, Arc::new(srs));
        assert(srs_map@.dom() =~= set![n]);
        KZH3CommitKey { srs_map: Arc::new(srs_map) }
    }

    /// Parameters for polynomials in `n` variables, from random secrets.
    pub fn setup(n: usize, _sf_log: usize, _offset: i128, _size: usize) -> (key: KZH3CommitKey)
        requires
            n < usize::BITS,
        ensures
            key.srs_map@.dom() == set![n],
            key.srs_map@[n].sized(),
            key.srs_map@[n].total() == n,
            key.srs_map@[n].x_log() >= key.srs_map@[n].y_log() >= key.srs_map@[n].z_log(),
            key.srs_map@[n].x_log() - key.srs_map@[n].z_log() <= 1,
            exists|g: int, tau_x: Seq<int>, tau_y: Seq<int>, tau_z: Seq<int>| #[trigger]
                key.srs_map@[n].generated(g, tau_x, tau_y, tau_z),
    {
        let srs = setup_kzh3_srs(n);
        let mut srs_map: HashMap<usize, Arc<KZH3SRS>> = HashMap::new();
        srs_map.insert(n, Arc::new(srs));
        assert(srs_map@.dom() =~= set![n]);
        KZH3CommitKey { srs_map: Arc::new(srs_map) }
    }

    /// Commits to a polynomial with the parameters for its number of variables.
    pub fn commit(poly: &DenseMLPoly, key: &KZH3CommitKey) -> (r: KZH3Commitment)
        requires
            key.srs_map@.contains_key(poly.n),
            committable(&*key.srs_map@[poly.n], poly),
        ensures
            r.srs == key.srs_map@[poly.n],
            r.c.log() == commitment_log(&*r.srs, whole_table(&*r.srs, poly)),
            g1_logs(r.aux.d_x@) =~= slice_logs(&*r.srs, whole_table(&*r.srs, poly)),
    {
        let srs = key.srs_map.get(&poly.n).unwrap();
        let (c, aux) = kzh3_commit(srs, poly);
        KZH3Commitment { srs: Arc::clone(srs), c, aux }
    }

    /// Opens a commitment at a point.
    pub fn open(
        commitment: &KZH3Commitment,
        poly: &DenseMLPoly,
        _key: &KZH3CommitKey,
        point: &[Fr],
    ) -> (r: KZH3Opening)
        requires
            committable(&*commitment.srs, poly),
            commitment.aux.d_x@.len() == commitment.srs.degree_x,
        ensures
            shaped(&*commitment.srs, &r),
            r.d_x@ == commitment.aux.d_x@,
            g1_logs(r.d_y@) =~= y_slice_logs(
                &*commitment.srs,
                whole_table(&*commitment.srs, poly),
                vals(point@),
            ),
            r.c_y.log() == y_commitment_log(
                &*commitment.srs,
                g1_logs(commitment.aux.d_x@),
                vals(point@),
            ),
            r.f_star.table() =~= star_table(
                &*commitment.srs,
                whole_table(&*commitment.srs, poly),
                vals(point@),
            ),
    {
        let r = kzh3_open(&commitment.srs, point, &commitment.c, &commitment.aux, poly);
        proof {
            assert(g1_logs(r.d_y@).len() == r.d_y@.len());
        }
        r
    }

    /// Verifies an opening for the value that its polynomial in `z` has at the point.
    pub fn verify(
        commitment: &KZH3Commitment,
        opening: &KZH3Opening,
        key: &KZH3VerifierKey,
        point: &[Fr],
    ) -> (r: bool)
        requires
            shaped(&*commitment.srs, opening),
        ensures
            r == opening_ok(
                &*commitment.srs,
                vals(point@),
                mle(opening.f_star.table(), z_part(&*commitment.srs, vals(point@))) % modulus(),
                commitment.c.log(),
                g1_logs(opening.d_x@),
                g1_logs(opening.d_y@),
                opening.c_y.log(),
                opening.f_star.table(),
            ),
    {
        Self::verify_and_extract(commitment, opening, key, point).0
    }

    /// Verifies an opening and returns the value it is for.
    pub fn verify_and_extract(
        commitment: &KZH3Commitment,
        opening: &KZH3Opening,
        _key: &KZH3VerifierKey,
        point: &[Fr],
    ) -> (r: (bool, Fr))
        requires
            shaped(&*commitment.srs, opening),
        ensures
            r.1@ == mle(opening.f_star.table(), z_part(&*commitment.srs, vals(point@)))
                % modulus(),
            r.0 == opening_ok(
                &*commitment.srs,
                vals(point@),
                r.1@,
                commitment.c.log(),
                g1_logs(opening.d_x@),
                g1_logs(opening.d_y@),
                opening.c_y.log(),
                opening.f_star.table(),
            ),
    {
        let zero = crate::kzh3::scalar_field_zero();
        let parts = split_input(&commitment.srs, point, zero);
        proof {
            lemma_sizes(&*commitment.srs);
            crate::kzh3::lemma_parts(&*commitment.srs, point@, zero, parts@);
        }
        let claimed = opening.f_star.evaluate_at_point(parts[0].as_slice());
        let ok = kzh3_verify(&commitment.srs, point, &claimed, &commitment.c, opening);
        (ok, claimed)
    }
}

/// A commitment is linear: the commitment to a combination of two tables is the combination of
/// their commitments.
pub proof fn lemma_commitment_linear(srs: &KZH3SRS, a: Seq<int>, b: Seq<int>, s: int)
    requires
        a.len() == b.len(),
    ensures
        commitment_log(srs, Seq::new(a.len(), |i: int| a[i] + s * b[i])) == (commitment_log(srs, a)
            + s * commitment_log(srs, b)) % modulus(),
{
    let h = g1_logs(srs.h_xyz@);
    let c = Seq::new(a.len(), |i: int| a[i] + s * b[i]);
    let n = a.len() as int;
    let f = |i: int| a[i] * h[i];
    let g = |i: int| b[i] * h[i];
    let sg = |i: int| s * g(i);
    lemma_sum_scale(s, g, n);
    lemma_sum_add(f, sg, n);
    let both = |i: int| f(i) + sg(i);
    let whole = |i: int| c[i] * h[i];
    assert forall|i: int| 0 <= i < n implies #[trigger] both(i) == whole(i) by {
        let (x, y, z) = (a[i], b[i], h[i]);
        assert(x * z + s * (y * z) == (x + s * y) * z) by (nonlinear_arith);
    }
    lemma_sum_ext(both, whole, n);
    assert(inner(c, h) == sum_to(whole, n));
    lemma_reduced(inner(a, h));
    lemma_reduced(inner(b, h));
    lemma_cong_mul(s, s, commitment_log(srs, b), inner(b, h));
    lemma_cong_add(
        commitment_log(srs, a),
        inner(a, h),
        s * commitment_log(srs, b),
        s * inner(b, h),
    );
}

/// What a commitment is written as is read back with its point and its opening aid.
pub proof fn lemma_encoding_determines(
    bytes: Seq<u8>,
    c: (Seq<u64>, Seq<u64>, bool),
    d_x: Seq<(Seq<u64>, Seq<u64>, bool)>,
    other: Seq<u8>,
)
    requires
        is_encoding(bytes, c, d_x),
        is_encoding(other, c, d_x),
    ensures
        bytes == other,
{
    crate::poly::bytes::lemma_value_determines(bytes.subrange(32, 40), other.subrange(32, 40));
    assert forall|p: int| 0 <= p < bytes.len() implies bytes[p] == other[p] by {
        if p < 32 {
            assert(bytes[p] == bytes.subrange(0, 32)[p]);
            assert(other[p] == other.subrange(0, 32)[p]);
        } else if p < 40 {
            assert(bytes[p] == bytes.subrange(32, 40)[p - 32]);
            assert(other[p] == other.subrange(32, 40)[p - 32]);
        } else {
            let i = (p - 40) / 32;
            let j = (p - 40) % 32;
            assert(d_x[i] == d_x[i]);
            assert(bytes[p] == bytes.subrange(40 + 32 * i, 72 + 32 * i)[j]);
            assert(other[p] == other.subrange(40 + 32 * i, 72 + 32 * i)[j]);
        }
    }
    assert(bytes =~= other);
}

} // verus!
