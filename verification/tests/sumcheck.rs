use zktransformer::arith::f_to_int;
use zktransformer::field::{CryptoField, Fr};
use zktransformer::poly::dense::{evaluate_multilinear_extension, precompute_eq, DenseMLPoly};
use zktransformer::sumcheck::general::GeneralLinearSumcheckProver;
use zktransformer::sumcheck::linear::LinearSumcheckProver;
use zktransformer::sumcheck::prover::SumcheckProver;
use zktransformer::sumcheck::sparse_bool::SparseBoolSumcheckProver;
use zktransformer::sumcheck::verify::SumcheckVerifier;
use zktransformer::transcript::Transcript;

fn frs(v: &[i128]) -> Vec<Fr> {
    v.iter().map(|x| Fr::from_i128(*x)).collect()
}

fn dense(v: &[i128]) -> DenseMLPoly {
    DenseMLPoly::from_evaluations(frs(v))
}

#[test]
fn transcripts_are_functions_of_what_went_in() {
    let mut a = Transcript::new("one");
    let mut b = Transcript::new("one");
    let mut c = Transcript::new("two");
    for t in [&mut a, &mut b, &mut c] {
        t.append_u64("n", 5);
        t.append_scalar("x", &Fr::from_i128(-3));
    }
    let x = a.challenge_scalar("c");
    assert!(x.equals(&b.challenge_scalar("c")));
    assert!(!x.equals(&c.challenge_scalar("c")));
    assert!(!x.equals(&a.challenge_scalar("c")));
}

#[test]
fn products_are_proved() {
    let p = [3, -1, 4, 1];
    let q = [2, 7, -1, 8];
    let sum: i128 = (0..4).map(|i| p[i] * q[i]).sum();
    let mut transcript = Transcript::new("test");
    let mut prover = LinearSumcheckProver::new(2, 2, &mut transcript);
    let polys = vec![dense(&p), dense(&q)];
    let proof = prover.prove(&polys, &mut transcript);
    assert_eq!(proof.round_messages.len(), 2);
    assert_eq!(proof.round_messages[0].len(), 3);
    // With the first variable at 0, 1 and 2.
    let ends: Vec<i128> = proof.round_messages[0].iter().map(|x| f_to_int(*x)).collect();
    assert_eq!(ends[0], 3 * 2 + 4 * (-1));
    assert_eq!(ends[1], -7 + 8);
    assert_eq!(ends[2], (-5) * 12 + (-2) * 17);

    let mut again = Transcript::new("test");
    let mut verifier = SumcheckVerifier::new(2, 2, &mut again);
    let (value, point) = verifier.verify(&mut again, proof.round_messages, Fr::from_i128(sum));
    let value = value.unwrap();
    assert!(value.equals(&proof.final_eval));
    let expected = polys[0].evaluate_at_point(&point).mul(polys[1].evaluate_at_point(&point));
    assert!(value.equals(&expected));
    assert!(transcript.challenge_scalar("next").equals(&again.challenge_scalar("next")));
}

#[test]
fn false_sums_and_broken_messages_are_rejected() {
    let prove = || {
        let mut transcript = Transcript::new("test");
        let mut prover = LinearSumcheckProver::new(2, 1, &mut transcript);
        prover.prove(&vec![dense(&[3, -1, 4, 1])], &mut transcript).round_messages
    };
    let verify = |messages: Vec<Vec<Fr>>, sum: i128| {
        let mut transcript = Transcript::new("test");
        let mut verifier = SumcheckVerifier::new(2, 1, &mut transcript);
        verifier.verify(&mut transcript, messages, Fr::from_i128(sum))
    };
    assert!(verify(prove(), 7).0.is_some());
    let (value, point) = verify(prove(), 8);
    assert!(value.is_none() && point.is_empty());
    let mut short = prove();
    short.pop();
    assert!(verify(short, 7).0.is_none());
    let mut long = prove();
    long[1].push(Fr::zero());
    assert!(verify(long, 7).0.is_none());
    let mut changed = prove();
    changed[1][0] = changed[1][0].add(Fr::one());
    assert!(verify(changed, 7).0.is_none());
}

#[test]
fn weighted_sums_of_products_are_proved() {
    let scalars = frs(&[5, -2]);
    let a = [1, 2, 3, 4];
    let b = [-1, 0, 2, 6];
    let r = frs(&[9, 4]);
    let eq = DenseMLPoly::new(2, precompute_eq(&r));
    let groups = vec![vec![dense(&a)], vec![dense(&b)]];
    let mut sum = Fr::zero();
    for i in 0..4 {
        let inner = Fr::from_i128(5 * a[i] - 2 * b[i]);
        sum = sum.add(eq.evaluations[i].mul(inner));
    }
    let mut transcript = Transcript::new("test");
    let mut prover = GeneralLinearSumcheckProver::new(2, 2, &mut transcript);
    let instance = (scalars, groups, eq);
    let proof = prover.prove(&instance, &mut transcript);
    let mut again = Transcript::new("test");
    let mut verifier = SumcheckVerifier::new(2, 2, &mut again);
    let (value, point) = verifier.verify(&mut again, proof.round_messages, sum);
    let at = |v: &[i128]| evaluate_multilinear_extension(&frs(v), &point);
    let inner = at(&a).mul(Fr::from_i128(5)).sub(at(&b).mul(Fr::from_i128(2)));
    let expected = instance.2.evaluate_at_point(&point).mul(inner);
    assert!(value.unwrap().equals(&expected));
    assert!(proof.final_eval.equals(&expected));
}

#[test]
fn selections_are_proved_to_be_boolean() {
    let weights = frs(&[3, 11]);
    let positions = vec![vec![6, 1], vec![0, 3, 7]];
    let r = frs(&[9, 4, -2]);
    let mut transcript = Transcript::new("test");
    let mut prover = SparseBoolSumcheckProver::new(3, &mut transcript);
    let proof = prover.prove(&weights, &positions, &r, &mut transcript);
    let mut again = Transcript::new("test");
    let mut verifier = SumcheckVerifier::new(3, 3, &mut again);
    // The sum is zero for polynomials that are zero or one everywhere.
    let (value, point) = verifier.verify(&mut again, proof.round_messages, Fr::zero());
    let eq = evaluate_multilinear_extension(&precompute_eq(&r), &point);
    let mut inner = Fr::zero();
    for (w, ones) in weights.iter().zip(positions.iter()) {
        let mut t = vec![Fr::zero(); 8];
        for p in ones {
            t[*p] = Fr::one();
        }
        let s = evaluate_multilinear_extension(&t, &point);
        inner = inner.add(w.mul(s).mul(s.sub(Fr::one())));
    }
    let expected = eq.mul(inner);
    assert!(value.unwrap().equals(&expected));
    assert!(proof.final_eval.equals(&expected));
}

#[test]
fn other_sums_are_refused() {
    let transcript = || Transcript::new("test");
    let check = |vars: usize, degree: usize, messages: Vec<Vec<Fr>>, sum: i128| {
        let mut t = transcript();
        let mut verifier = SumcheckVerifier::new(vars, degree, &mut t);
        let (value, point) = verifier.verify(&mut t, messages, Fr::from_i128(sum));
        assert!(value.is_some() || point.is_empty());
        value.is_some()
    };
    let product = || {
        let mut t = transcript();
        let mut prover = LinearSumcheckProver::new(2, 2, &mut t);
        let polys = vec![dense(&[3, -1, 4, 1]), dense(&[2, 7, -1, 8])];
        let proof = prover.prove(&polys, &mut t);
        assert_eq!(prover.challenges.len(), 2);
        proof.round_messages
    };
    let weighted = || {
        let mut t = transcript();
        let mut prover = GeneralLinearSumcheckProver::new(1, 2, &mut t);
        let instance = (frs(&[5]), vec![vec![dense(&[1, 2])]], dense(&[3, 4]));
        let proof = prover.prove(&instance, &mut t);
        assert_eq!(prover.challenges.len(), 1);
        proof.round_messages
    };
    let boolean = || {
        let mut t = transcript();
        let mut prover = SparseBoolSumcheckProver::new(2, &mut t);
        let proof = prover.prove(&frs(&[7]), &[vec![1, 2]], &frs(&[9, 4]), &mut t);
        assert_eq!(prover.challenges.len(), 2);
        proof.round_messages
    };
    for (offset, accepted) in [(0, true), (1, false), (-1, false)] {
        // 3 * 2 - 1 * 7 - 4 * 1 + 1 * 8
        assert_eq!(check(2, 2, product(), 3 + offset), accepted);
        // 5 * (1 * 3 + 2 * 4)
        assert_eq!(check(1, 2, weighted(), 55 + offset), accepted);
        assert_eq!(check(2, 3, boolean(), offset), accepted);
    }
}

#[test]
fn the_sparse_prover_sends_what_the_general_one_sends() {
    let weights = frs(&[3, -11]);
    let positions = vec![vec![6, 1], vec![0, 3, 7]];
    let r = frs(&[9, 4, -2]);
    let mut one = Transcript::new("test");
    let mut sparse = SparseBoolSumcheckProver::new(3, &mut one);
    let ps = sparse.prove(&weights, &positions, &r, &mut one);
    let group = |ones: &Vec<usize>| {
        let s: Vec<i128> = (0..8).map(|p| ones.contains(&p) as i128).collect();
        let less: Vec<i128> = s.iter().map(|v| v - 1).collect();
        vec![dense(&s), dense(&less)]
    };
    let groups: Vec<Vec<DenseMLPoly>> = positions.iter().map(group).collect();
    let instance = (weights, groups, DenseMLPoly::new(3, precompute_eq(&r)));
    let mut two = Transcript::new("test");
    let mut general = GeneralLinearSumcheckProver::new(3, 3, &mut two);
    let pg = general.prove(&instance, &mut two);
    let same = |a: &[Fr], b: &[Fr]| {
        a.len() == b.len() && a.iter().zip(b.iter()).all(|(x, y)| x.equals(y))
    };
    assert_eq!(ps.round_messages.len(), 3);
    assert_eq!(pg.round_messages.len(), 3);
    assert!((0..3).all(|i| same(&ps.round_messages[i], &pg.round_messages[i])));
    assert!(same(&sparse.challenges, &general.challenges));
    assert!(ps.final_eval.equals(&pg.final_eval));
    assert!(one.challenge_scalar("next").equals(&two.challenge_scalar("next")));
    assert!(ps.round_messages[0][0].equals(&Fr::zero()));
    assert!(ps.round_messages[0][1].equals(&Fr::zero()));
}
