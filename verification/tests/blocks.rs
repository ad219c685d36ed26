use zktransformer::arith::f_to_int;
use zktransformer::basicblock::add::{dim_bit_offsets, extract_input_point};
use zktransformer::basicblock::llama::{group_largest, square_sums};
use zktransformer::basicblock::permute::{shape_indices_to_eval_index, shape_pow};
use zktransformer::basicblock::range::padded_shape;
use zktransformer::basicblock::{
    Add, BasicBlock, BasicBlockType, ChangeShape, ClampLower, DivConst, Einsum, ExpHelper,
    NonNegative, NonStructuredExp, Permute, RMSReciprocal, Reciprocal, Reducer, ScaleDown, ScaleUp,
    SigmoidConst, SoftmaxConst, Sub, TwoPow, ZeroCheck,
};
use zktransformer::field::Fr;
use zktransformer::poly::dense::evaluate_multilinear_extension;
use zktransformer::transcript::Transcript;
use zktransformer::witness::{Claim, DataType, Poly, PolyType, Role, Witness};

fn frs(v: &[i128]) -> Vec<Fr> {
    v.iter().map(|x| Fr::from_i128(*x)).collect()
}

/// A tensor with the given padded table.
fn tensor(shape: &[usize], table: &[i128], sf: usize) -> Witness {
    Witness::new(shape.to_vec(), frs(table), DataType::Float, sf, Role::Input)
}

fn table(w: &Witness) -> Vec<i128> {
    match w.data.as_ref().unwrap() {
        Poly::Dense(p) => p.evaluations.iter().map(|x| f_to_int(*x)).collect(),
        Poly::Sparse(_) => panic!("not dense"),
    }
}

fn selection(w: &Witness) -> Vec<(usize, usize)> {
    match w.data.as_ref().unwrap() {
        Poly::Dense(_) => panic!("not sparse"),
        Poly::Sparse(p) => p.selection.selection.clone(),
    }
}

fn claim(edge_id: usize, point: &[i128], w: &Witness) -> Claim {
    let point = frs(point);
    let eval = w.data.as_ref().unwrap().evaluate_at_point(&point);
    Claim { edge_id, sparse_id: 0, point, eval }
}

#[test]
fn sums_and_differences_of_tensors() {
    let a = tensor(&[2, 2], &[1, 2, 3, 4], 7);
    let b = tensor(&[2, 2], &[10, 20, 30, 40], 7);
    let sum = Add.run(&[&a, &b], &[]);
    assert_eq!(sum.len(), 1);
    assert_eq!(table(&sum[0]), vec![11, 22, 33, 44]);
    assert_eq!(sum[0].shape, vec![2, 2]);
    assert_eq!(sum[0].sf, 7);
    assert_eq!(sum[0].role, Role::Output);
    assert_eq!(table(&Sub.run(&[&a, &b], &[])[0]), vec![-9, -18, -27, -36]);
}

#[test]
fn sums_are_broadcast() {
    // The last dimensions are aligned; a dimension of one is repeated.
    let a = tensor(&[2, 2], &[1, 2, 3, 4], 0);
    let row = tensor(&[2], &[100, 200], 0);
    assert_eq!(table(&Add.run(&[&a, &row], &[])[0]), vec![101, 102, 203, 204]);
    let column = tensor(&[2, 1], &[100, 200], 0);
    assert_eq!(table(&Add.run(&[&a, &column], &[])[0]), vec![101, 202, 103, 204]);
    let one = tensor(&[1], &[5], 0);
    assert_eq!(table(&Sub.run(&[&one, &a], &[])[0]), vec![4, 3, 2, 1]);
}

#[test]
fn claims_about_sums_are_split_and_checked() {
    let a = tensor(&[2, 2], &[1, 2, 3, 4], 0);
    let b = tensor(&[2], &[100, 200], 0);
    for difference in [false, true] {
        let block = if difference {
            BasicBlockType::Sub(Sub)
        } else {
            BasicBlockType::Add(Add)
        };
        let c = block.run(&[&a, &b], &[]).pop().unwrap();
        let out = claim(2, &[5, 7], &c);
        let mut transcript = Transcript::new("test");
        let (proofs, claims) =
            block.prove(&[&a, &b, &c], &[0, 1, 2], &[&out], &mut transcript);
        assert!(proofs.is_empty());
        assert_eq!(claims.len(), 2);
        assert_eq!(claims[0].edge_id, 0);
        assert_eq!(claims[1].edge_id, 1);
        assert!(claims[0].eval.equals(&claim(0, &[5, 7], &a).eval));
        // The vector only has the variable of the last dimension.
        assert!(claims[1].eval.equals(&claim(1, &[7], &b).eval));
        let w = [&a, &b, &c];
        assert!(block.verify(&w, &[&claims[0], &claims[1], &out], &[], &mut transcript));
        let mut wrong = claim(2, &[5, 7], &c);
        wrong.eval = wrong.eval.add(Fr::from_u64(1));
        assert!(!block.verify(&w, &[&claims[0], &claims[1], &wrong], &[], &mut transcript));
        let moved = Claim { edge_id: 1, sparse_id: 0, point: frs(&[8]), eval: claims[1].eval };
        assert!(!block.verify(&w, &[&claims[0], &moved, &out], &[], &mut transcript));
    }
}

#[test]
fn points_of_broadcast_inputs() {
    assert_eq!(dim_bit_offsets(&[1, 4, 4]), vec![0, 0, 2]);
    assert_eq!(dim_bit_offsets(&[2, 5, 4]), vec![0, 1, 4]);
    let offsets = dim_bit_offsets(&[2, 5, 4]);
    let point = [10, 20, 21, 22, 30, 31];
    assert_eq!(extract_input_point(&point, &[1, 2], &[2, 5, 4], &offsets), vec![20, 21, 22, 30, 31]);
    assert_eq!(extract_input_point(&point, &[0], &[2, 5, 4], &offsets), vec![10]);
    assert_eq!(extract_input_point(&point, &[], &[2, 5, 4], &offsets), Vec::<i32>::new());
}

#[test]
fn clamping_from_below() {
    let x = tensor(&[4], &[-100, -10, 0, 7], 3);
    let y = ClampLower { c: 10 }.run(&[&x], &[]).pop().unwrap();
    assert_eq!(table(&y), vec![-10, -10, 0, 7]);
    assert_eq!(y.sf, 3);
    // The check of an edge has one output of its own.
    let out = ZeroCheck.run(&[&x], &[]);
    assert_eq!(out.len(), 1);
    assert_eq!(out[0].shape, vec![1]);
    assert_eq!(out[0].role, Role::Auxiliary);
    assert_eq!(table(&out[0]), vec![0]);
}

#[test]
fn fewer_and_more_fractional_bits() {
    let x = tensor(&[4], &[16, 23, 24, -24], 4);
    let out = ScaleDown { input_sf: 4, output_sf: 0 }.run(&[&x], &[]);
    assert_eq!(table(&out[0]), vec![1, 1, 2, -1]);
    assert_eq!(out[0].sf, 0);
    assert_eq!(selection(&out[1]), vec![(0, 8), (1, 15), (2, 0), (3, 0)]);
    assert_eq!(out[1].poly_type, PolyType::Sparse);
    // The rounded values and the rests give the values back.
    for (i, v) in [16i128, 23, 24, -24].iter().enumerate() {
        assert_eq!(table(&out[0])[i] * 16 + selection(&out[1])[i].1 as i128 - 8, *v);
    }
    let up = ScaleUp { input_sf: 0, output_sf: 2 }.run(&[&x], &[]);
    assert_eq!(table(&up[0]), vec![64, 92, 96, -96]);
    assert_eq!(selection(&up[1]), vec![(0, 2), (1, 2), (2, 2), (3, 2)]);
    // From 32 bits on only a zero has the middle of the table.
    let x = tensor(&[4], &[0, 1, -1, 5], 0);
    let up = ScaleUp { input_sf: 0, output_sf: 32 }.run(&[&x], &[]);
    assert_eq!(table(&up[0]), vec![0, 1 << 32, -(1 << 32), 5 << 32]);
    assert_eq!(selection(&up[1]), vec![(0, 1 << 31), (1, 0), (2, 0), (3, 0)]);
    let up = ScaleUp { input_sf: 0, output_sf: 31 }.run(&[&x], &[]);
    assert_eq!(selection(&up[1])[1], (1, 1 << 30));
}

#[test]
fn range_checks_select_their_entries() {
    let x = tensor(&[3], &[5, 15, 16, -1], 0);
    let s = NonNegative::new(4).run(&[&x], &[]).pop().unwrap();
    assert_eq!(selection(&s), vec![(0, 5), (1, 15), (2, 0), (3, 0)]);
    assert_eq!(s.shape, vec![4]);
    assert_eq!(padded_shape(&[3, 1, 5]), vec![4, 1, 8]);
}

#[test]
fn exponentials_are_decomposed() {
    let ln2 = zktransformer::arith::scaled_ln2(15) as i128;
    let x = tensor(&[4], &[0, -ln2, -3 * ln2 - 5, -20 * ln2], 15);
    let out = ExpHelper { sf_log: 15 }.run(&[&x], &[]);
    assert_eq!(selection(&out[1]), vec![(0, 0), (1, 1), (2, 3), (3, 0)]);
    assert_eq!(table(&out[0]), vec![0, 0, -5, 0]);
    let powers = TwoPow.run(&[&out[1]], &[]).pop().unwrap();
    assert_eq!(table(&powers), vec![32768, 16384, 4096, 32768]);
    assert_eq!(powers.sf, 15);
    let lookup = tensor(&[4], &[1, 2, 3, 4], 15);
    let plain = NonStructuredExp { sf_log: 15 }.run(&[&x, &lookup], &[]);
    assert_eq!(selection(&plain[1]), vec![(0, 0), (1, 1), (2, 3), (3, 20)]);
}

#[test]
fn divisions_round_to_the_nearest() {
    let x = tensor(&[4], &[7, -7, 8, 0], 2);
    let y = DivConst { c: 2 }.run(&[&x], &[]).pop().unwrap();
    assert_eq!(table(&y), vec![4, -4, 4, 0]);
    // Of a quotient the low 32 bits are kept, and it is that of doubles.
    let x = tensor(&[4], &[1 << 32, -(1 << 32) - 5, (1 << 53) + 3, 1 << 100], 0);
    let y = DivConst { c: 1 }.run(&[&x], &[]).pop().unwrap();
    assert_eq!(table(&y), vec![0, -5, 4, 0]);
    let x = tensor(&[2], &[3 * (1 << 51) + 1, 3 * (1 << 50) + 1], 0);
    let y = DivConst { c: 3 }.run(&[&x], &[]).pop().unwrap();
    assert_eq!(table(&y), vec![1, 0]);
    let r = Reciprocal.run(&[&tensor(&[4], &[4, -4, 3, 0], 4)], &[]).pop().unwrap();
    assert_eq!(table(&r), vec![64, -64, 85, 0]);
    assert_eq!(r.role, Role::Auxiliary);
}

#[test]
fn rounded_reals_are_taken_as_advice() {
    let x = tensor(&[2, 2], &[1, 2, 3, 4], 15);
    let r = RMSReciprocal.run(&[&x], &[10, -20]).pop().unwrap();
    assert_eq!(r.shape, vec![2, 1]);
    assert_eq!(table(&r), vec![10, -20]);
    let s = SigmoidConst.run(&[&x], &[1, -2, 3, 0x1_0000_0005]).pop().unwrap();
    assert_eq!(table(&s), vec![1, -2, 3, 0x1_0000_0005]);
    // The shift of a row is the negated sum of its largest entry and the advice.
    let c = SoftmaxConst { dim: 2 }.run(&[&x], &[100, 200]).pop().unwrap();
    assert_eq!(table(&c), vec![-103, -204, -103, -204]);
}

#[test]
fn rounded_values_are_kept_whole() {
    // One entry of 2^-15 among sixteen: the root mean square is 2^-17.
    let mut entries = vec![0; 16];
    entries[0] = 1;
    let x = tensor(&[16], &entries, 15);
    assert_eq!(square_sums(&x), Some(vec![1]));
    let r = RMSReciprocal.run(&[&x], &[1 << 32]).pop().unwrap();
    assert_eq!(table(&r), vec![4294967296]);
    let r = RMSReciprocal.run(&[&x], &[-(1 << 40) - 3]).pop().unwrap();
    assert_eq!(table(&r), vec![-(1 << 40) - 3]);
    let r = Reciprocal.run(&[&tensor(&[2], &[1, -1], 40)], &[]).pop().unwrap();
    assert_eq!(table(&r), vec![1 << 80, -(1 << 80)]);
    let c = SoftmaxConst { dim: 2 }.run(&[&tensor(&[2], &[5, 1 << 70], 0)], &[9]).pop().unwrap();
    assert_eq!(table(&c), vec![-(1 << 70) - 9, -(1 << 70) - 9]);
}

#[test]
fn groups_are_summed_without_their_padding() {
    // Two groups of three entries; the last column is padding.
    let x = tensor(&[2, 3], &[1, 2, -3, 4, 5, -6, 100, 100], 15);
    assert_eq!(square_sums(&x), Some(vec![35, 56]));
    assert_eq!(group_largest(&x, 0, 2, 3), 5);
    assert_eq!(group_largest(&x, 1, 2, 3), 4);
    assert_eq!(group_largest(&x, 1, 2, 4), 100);
    let flat = tensor(&[1], &[-9], 0);
    assert_eq!(square_sums(&flat), Some(vec![81]));
    // The largest square of 128 bits, and the first that takes more.
    let large = tensor(&[1], &[(1 << 64) - 1], 0);
    assert_eq!(square_sums(&large), Some(vec![u128::MAX - (1 << 65) + 2]));
    assert_eq!(square_sums(&tensor(&[1], &[1 << 64], 0)), None);
}

#[test]
fn powers_of_the_selected_steps() {
    let ln2 = zktransformer::arith::scaled_ln2(15) as i128;
    let entries: Vec<i128> = (0..16).map(|k| -k * ln2).collect();
    let parts = ExpHelper { sf_log: 15 }.run(&[&tensor(&[16], &entries, 15)], &[]);
    let powers = TwoPow.run(&[&parts[1]], &[]).pop().unwrap();
    let expected: Vec<i128> = (0..16).map(|k| 1 << (15 - k)).collect();
    assert_eq!(table(&powers), expected);
    assert_eq!(powers.sf, 15);
    // The padded entry counts too; half a step is rounded up.
    let parts = ExpHelper { sf_log: 15 }.run(&[&tensor(&[3], &[-1, -ln2 + 1, 0, -ln2], 15)], &[]);
    let powers = TwoPow.run(&[&parts[1]], &[]).pop().unwrap();
    assert_eq!(table(&powers), vec![32768, 16384, 32768, 16384]);
}

#[test]
fn rounded_quotients_pass_their_checks() {
    let unit = 1i128 << 15;
    let entries = [1, -3, 777, unit, 1024 * unit, -1024 * unit, 1000 * unit + 1, 5];
    let x = tensor(&[8], &entries, 15);
    let r = table(&Reciprocal.run(&[&x], &[]).pop().unwrap());
    let products: Vec<i128> = (0..8).map(|i| entries[i] * r[i]).collect();
    let scale = ScaleDown { input_sf: 30, output_sf: 15 };
    let z = table(&scale.run(&[&tensor(&[8], &products, 30)], &[])[0]);
    assert!(z.iter().all(|v| (v - unit).abs() <= 512));
    let means = table(&DivConst { c: 7 }.run(&[&x], &[]).pop().unwrap());
    assert!((0..8).all(|i| (entries[i] - 7 * means[i]).abs() <= 3));
}

#[test]
fn shapes_are_changed_without_the_values() {
    let x = tensor(&[2, 2], &[1, 2, 3, 4], 15);
    let y = ChangeShape { new_shape: vec![4] }.run(&[&x], &[]).pop().unwrap();
    assert_eq!(y.shape, vec![4]);
    assert_eq!(table(&y), vec![1, 2, 3, 4]);
}

#[test]
fn entries_are_permuted() {
    assert_eq!(shape_pow(&[3, 2]), vec![4, 2]);
    assert_eq!(shape_indices_to_eval_index(&[4, 2], &[3, 1]), 7);
    let x = tensor(&[2, 2], &[1, 2, 3, 4], 0);
    // Transposition.
    let mut permutation = Vec::new();
    for i in 0..2 {
        for j in 0..2 {
            permutation.push((vec![i, j], vec![j, i]));
        }
    }
    let block = Permute { permutation, output_shape: vec![2, 2] };
    let y = block.run(&[&x], &[]).pop().unwrap();
    assert_eq!(table(&y), vec![1, 3, 2, 4]);
    let out = claim(1, &[5, 7], &y);
    let mut transcript = Transcript::new("test");
    let (proofs, claims) = block.prove(&[&x, &y], &[0, 1], &[&out], &mut transcript);
    assert_eq!(proofs.len(), 1);
    // The first message adds up to the claimed value.
    let first = &proofs[0].round_messages[0];
    assert!(first[0].add(first[1]).equals(&out.eval));
    let x_values = frs(&[1, 2, 3, 4]);
    assert!(claims[0].eval.equals(&evaluate_multilinear_extension(&x_values, &claims[0].point)));
}

#[test]
fn claims_are_reduced_to_one() {
    let x = tensor(&[4], &[3, 1, 4, 1], 0);
    let a = claim(0, &[2, 3], &x);
    let b = claim(0, &[5, 8], &x);
    let mut transcript = Transcript::new("test");
    let (proofs, claims) = Reducer.prove(&[&x], &[0], &[&a, &b], &mut transcript);
    let mut again = Transcript::new("test");
    assert!(Reducer.verify(&[&x], &[&a, &b, &claims[0]], &[&proofs[0]], &mut again));
    // Both transcripts stand at the same place.
    assert!(transcript.challenge_scalar("next").equals(&again.challenge_scalar("next")));
    let mut wrong = claim(0, &[5, 8], &x);
    wrong.eval = wrong.eval.add(Fr::from_u64(1));
    let mut again = Transcript::new("test");
    assert!(!Reducer.verify(&[&x], &[&a, &wrong, &claims[0]], &[&proofs[0]], &mut again));
    let mut wrong = claim(0, &[2, 3], &x);
    wrong.eval = wrong.eval.sub(Fr::from_u64(5));
    let mut again = Transcript::new("test");
    assert!(!Reducer.verify(&[&x], &[&wrong, &b, &claims[0]], &[&proofs[0]], &mut again));
    assert_eq!(claims[0].edge_id, 0);
    assert!(claims[0].eval.equals(&x.data.as_ref().unwrap().evaluate_at_point(&claims[0].point)));
    let mut wrong = Claim {
        edge_id: 0,
        sparse_id: 0,
        point: claims[0].point.clone(),
        eval: claims[0].eval,
    };
    wrong.eval = wrong.eval.add(Fr::from_u64(1));
    let mut again = Transcript::new("test");
    assert!(!Reducer.verify(&[&x], &[&a, &b, &wrong], &[&proofs[0]], &mut again));
}

#[test]
fn lookups_are_proved_by_sum_check() {
    let x = tensor(&[4], &[0, -1, -2, -3], 15);
    let t = tensor(&[4], &[9, 8, 7, 6], 15);
    let y = tensor(&[4], &[9, 8, 7, 6], 15);
    let pairs = vec![(0, 0), (1, 1), (2, 2), (3, 3)];
    let sparse = zktransformer::poly::sparse::SelectionPolynomial::new(2, 2, pairs).to_sparse();
    let s = Witness {
        shape: vec![4],
        data: Some(Poly::Sparse(sparse)),
        poly_type: PolyType::Sparse,
        data_type: DataType::Float,
        sf: 0,
        role: Role::Auxiliary,
    };
    let block = NonStructuredExp { sf_log: 15 };
    let out = claim(2, &[5, 7], &y);
    let mut transcript = Transcript::new("test");
    let (proofs, claims) =
        block.prove(&[&x, &t, &y, &s], &[0, 1, 2, 3], &[&out], &mut transcript);
    assert_eq!(claims.len(), 1);
    let first = &proofs[0].round_messages[0];
    assert!(first[0].add(first[1]).equals(&out.eval));
    let mut again = Transcript::new("test");
    assert!(block.verify(&[&x, &t, &y, &s], &[&out], &[&proofs[0]], &mut again));
}

#[test]
fn numbers_of_inputs_and_outputs() {
    let einsum = BasicBlockType::Einsum(Einsum { equation: String::from("ij,jk->ik") });
    assert!(BasicBlockType::Add(Add).accepts_inputs(2));
    assert!(!BasicBlockType::Add(Add).accepts_inputs(1));
    assert!(!BasicBlockType::Sub(Sub).accepts_inputs(3));
    assert!(BasicBlockType::NonStructuredExp(NonStructuredExp { sf_log: 15 }).accepts_inputs(2));
    assert!(einsum.accepts_inputs(3));
    assert!(!einsum.accepts_inputs(0));
    assert!(BasicBlockType::TwoPow(TwoPow).accepts_inputs(1));
    assert!(!BasicBlockType::TwoPow(TwoPow).accepts_inputs(2));
    BasicBlockType::Add(Add).check_inputs(2);
    einsum.check_inputs(1);
    BasicBlockType::TwoPow(TwoPow).check_inputs(1);
    assert_eq!(einsum.out_arity(), 1);
    assert_eq!(BasicBlockType::ZeroCheck(ZeroCheck).out_arity(), 1);
    let scale = ScaleDown { input_sf: 2, output_sf: 1 };
    assert_eq!(BasicBlockType::ScaleDown(scale).out_arity(), 2);
    assert_eq!(BasicBlockType::ExpHelper(ExpHelper { sf_log: 15 }).out_arity(), 2);
    let permute = Permute { permutation: Vec::new(), output_shape: vec![2] };
    assert_eq!(BasicBlockType::Permute(permute).out_arity(), 2);
    assert_eq!(BasicBlockType::Reducer(Reducer).out_arity(), 1);
}
