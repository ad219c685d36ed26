use std::sync::Arc;
use zktransformer::curve::{G1, G2, Gt};
use zktransformer::field::{CryptoField, Fr};
use zktransformer::kzh3::scheme::{KZH3Commit, KZH3Commitment};
use zktransformer::kzh3::{
    get_degree_from_maximum_supported_degree, kzh3_commit, kzh3_open, kzh3_verify, log_2,
    scalar_field_zero, setup_kzh3_srs, split_input, KZH3Aux,
};
use zktransformer::poly::dense::DenseMLPoly;

fn frs(v: &[i128]) -> Vec<Fr> {
    v.iter().map(|x| Fr::from_i128(*x)).collect()
}

#[test]
fn groups_are_additive() {
    let five = G1::generator_multiple(&Fr::from_u64(5));
    let seven = G1::generator_multiple(&Fr::from_u64(7));
    assert!(five.add(&seven).equals(&G1::generator_multiple(&Fr::from_u64(12))));
    assert!(five.sub(&seven).equals(&G1::generator_multiple(&Fr::from_i128(-2))));
    assert!(five.mul(&Fr::from_u64(7)).equals(&G1::generator_multiple(&Fr::from_u64(35))));
    assert!(!five.equals(&seven));
    let both = [five, seven];
    let sum = G1::msm(&both, &frs(&[2, 3]));
    assert!(sum.equals(&G1::generator_multiple(&Fr::from_u64(31))));
    assert!(G1::msm(&[], &[]).equals(&G1::generator_multiple(&Fr::zero())));
}

#[test]
fn pairings_are_bilinear() {
    let a = G1::generator_multiple(&Fr::from_u64(6));
    let b = G2::generator_multiple(&Fr::from_u64(35));
    let c = G1::generator_multiple(&Fr::from_u64(10));
    let d = G2::generator_multiple(&Fr::from_u64(3)).mul(&Fr::from_u64(7));
    assert!(Gt::pairing(&a, &b).equals(&Gt::pairing(&c, &d)));
    assert!(!Gt::pairing(&a, &d).equals(&Gt::pairing(&c, &d)));
    let one = G1::generator_multiple(&Fr::one());
    let two = G2::generator_multiple(&Fr::from_u64(2));
    let three = G2::generator_multiple(&Fr::from_u64(3));
    let product = Gt::multi_pairing(&[one.clone(), one.clone()], &[two, three]);
    let five = G2::generator_multiple(&Fr::from_u64(5));
    assert!(product.equals(&Gt::pairing(&one, &five)));
}

#[test]
fn elements_are_written_and_read() {
    let p = G1::random();
    let bytes = p.to_compressed();
    assert_eq!(bytes.len(), 32);
    assert!(G1::from_compressed(&bytes).unwrap().equals(&p));
    assert!(G1::from_compressed(&[0xff; 32]).is_none());
    assert!(G1::from_compressed(&[]).is_none());
}

#[test]
fn degrees_are_split_in_three() {
    assert_eq!(log_2(8), 3);
    assert_eq!(scalar_field_zero(), Fr::zero());
    assert_eq!(get_degree_from_maximum_supported_degree(6), (2, 2, 2));
    assert_eq!(get_degree_from_maximum_supported_degree(7), (3, 2, 2));
    assert_eq!(get_degree_from_maximum_supported_degree(8), (3, 3, 2));
}

#[test]
fn openings_of_commitments_verify() {
    let srs = setup_kzh3_srs(3);
    let table = [3, 1, 4, 1, -5, 9, 2, 6];
    let poly = DenseMLPoly::from_evaluations(frs(&table));
    let (com, aux) = kzh3_commit(&srs, &poly);
    let point = frs(&[2, -3, 5]);
    let value = poly.evaluate_at_point(&point);
    let opening = kzh3_open(&srs, &point, &com, &aux, &poly);
    assert!(kzh3_verify(&srs, &point, &value, &com, &opening));
    assert!(!kzh3_verify(&srs, &point, &value.add(Fr::one()), &com, &opening));
    let other = frs(&[2, -3, 6]);
    assert!(!kzh3_verify(&srs, &other, &value, &com, &opening));
    let changed = com.add(&G1::generator_multiple(&Fr::one()));
    assert!(!kzh3_verify(&srs, &point, &value, &changed, &opening));
    let parts = split_input(&srs, &point, Fr::zero());
    let total: usize = parts.iter().map(|p| p.len()).sum();
    assert_eq!(parts.len(), 3);
    assert_eq!(total, log_2(srs.degree_x) + log_2(srs.degree_y) + log_2(srs.degree_z));
}

#[test]
fn commitments_are_linear() {
    let srs = setup_kzh3_srs(2);
    let p = DenseMLPoly::from_evaluations(frs(&[1, 2, 3, 4]));
    let q = DenseMLPoly::from_evaluations(frs(&[5, -6, 7, 8]));
    let (cp, _) = kzh3_commit(&srs, &p);
    let (cq, _) = kzh3_commit(&srs, &q);
    let (sum, _) = kzh3_commit(&srs, &p.add(&q));
    assert!(cp.add(&cq).equals(&sum));
    let (scaled, _) = kzh3_commit(&srs, &p.mul_by_scalar(Fr::from_u64(9)));
    assert!(cp.mul(&Fr::from_u64(9)).equals(&scaled));
}

fn committed(n: usize, table: &[i128]) -> (KZH3Commitment, DenseMLPoly) {
    let key = KZH3Commit::setup(n, 15, 0, 0);
    let poly = DenseMLPoly::from_evaluations(frs(table));
    (KZH3Commit::commit(&poly, &key), poly)
}

#[test]
fn the_scheme_commits_opens_and_verifies() {
    let key = KZH3Commit::setup(2, 15, 0, 0);
    let poly = DenseMLPoly::from_evaluations(frs(&[3, 1, 4, -1]));
    let com = KZH3Commit::commit(&poly, &key);
    let point = frs(&[7, 9]);
    let opening = KZH3Commit::open(&com, &poly, &key, &point);
    let verifier_key = zktransformer::kzh3::scheme::KZH3VerifierKey { srs_map: key.srs_map.clone() };
    assert!(KZH3Commit::verify(&com, &opening, &verifier_key, &point));
    let (ok, value) = KZH3Commit::verify_and_extract(&com, &opening, &verifier_key, &point);
    assert!(ok);
    assert!(value.equals(&poly.evaluate_at_point(&point)));
    let other = frs(&[7, 8]);
    assert!(!KZH3Commit::verify(&com, &opening, &verifier_key, &other));
}

#[test]
fn commitments_of_the_scheme_add_up() {
    let key = KZH3Commit::setup(2, 15, 0, 0);
    let p = DenseMLPoly::from_evaluations(frs(&[3, 1, 4, -1]));
    let q = DenseMLPoly::from_evaluations(frs(&[2, 7, 1, 8]));
    let commit = |x: &DenseMLPoly| KZH3Commit::commit(x, &key);
    let sum = commit(&p).add(commit(&q));
    assert!(sum.c.equals(&commit(&p.add(&q)).c));
    let difference = sum.sub(commit(&q));
    assert!(difference.c.equals(&commit(&p).c));
    let scaled = commit(&p).mul(Fr::from_u64(5));
    assert!(scaled.c.equals(&commit(&p.mul_by_scalar(Fr::from_u64(5))).c));
    // What is added up opens like a commitment to the sum.
    let point = frs(&[4, 6]);
    let both = p.add(&q);
    let com = commit(&p).add(commit(&q));
    let opening = KZH3Commit::open(&com, &both, &key, &point);
    let verifier_key = zktransformer::kzh3::scheme::KZH3VerifierKey { srs_map: key.srs_map.clone() };
    assert!(KZH3Commit::verify(&com, &opening, &verifier_key, &point));
}

#[test]
fn commitments_are_serialized() {
    let (com, _) = committed(2, &[3, 1, 4, -1]);
    let bytes = com.serialize_compressed();
    assert_eq!(bytes.len(), com.serialized_size());
    let read = KZH3Commitment::deserialize_compressed(&bytes).unwrap();
    assert!(read.c.equals(&com.c));
    assert!(read == com);
    assert!(KZH3Commitment::deserialize_compressed(&bytes[..bytes.len() - 1]).is_none());
    assert_eq!(com.to_transcript_bytes(), com.c.to_compressed());
    assert!(KZH3Commitment::default() != com);
}

#[test]
fn auxiliary_data_is_scaled() {
    let key = KZH3Commit::setup(2, 15, 0, 0);
    let p = DenseMLPoly::from_evaluations(frs(&[3, 1, 4, -1]));
    let commit = |x: &DenseMLPoly| KZH3Commit::commit(x, &key);
    let r = Fr::from_u64(6);
    let mut aux = commit(&p).aux;
    aux.scale_by_r(&r);
    let expected = commit(&p.mul_by_scalar(r)).aux;
    assert_eq!(aux.d_x.len(), expected.d_x.len());
    for (a, b) in aux.d_x.iter().zip(expected.d_x.iter()) {
        assert!(a.equals(b));
    }
    assert!(KZH3Aux::dummy().d_x.is_empty());
}

#[test]
fn keys_hold_parameters_for_one_size() {
    let key = KZH3Commit::fake_setup(3);
    assert_eq!(key.srs_map.len(), 1);
    let srs = Arc::clone(&key.srs_map[&3]);
    assert_eq!((srs.degree_x, srs.degree_y, srs.degree_z), (2, 2, 2));
    assert_eq!(srs.h_xyz.len(), 8);
    let identity = G1::generator_multiple(&Fr::zero());
    assert!(srs.h_xyz.iter().all(|p| p.equals(&identity)));
    let real = KZH3Commit::setup(4, 15, 0, 0);
    assert_eq!(real.srs_map[&4].degree_x, 4);
    assert!(!real.srs_map[&4].h_xyz[0].equals(&real.srs_map[&4].h_xyz[1]));
}
