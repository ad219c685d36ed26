use std::collections::{HashMap, VecDeque};
use zktransformer::arith::f_to_int;
use zktransformer::field::{CryptoField, Fr};
use zktransformer::poly::bytes::{
    extract_low_bits, le_vec_to_usize, right_shift_le_vec, usize_to_le_vec,
};
use zktransformer::poly::dense::{
    add_broadcast, evaluate_lagrange_basis, evaluate_multilinear_extension,
    fix_variables_from_right, interpolate, pad_at_start, precompute_eq, range_dense, two_pow_dense,
    DenseMLPoly,
};
use zktransformer::poly::fix::{fix_blocks, fix_many, FixedBlock};
use zktransformer::poly::integer::fix_variables_zkgpt;
use zktransformer::poly::mlpoly::MLPoly;
use zktransformer::poly::sparse::{SelectionPolynomial, SparseMLPoly};
use zktransformer::poly::univariate::{batch_invert, evaluate_univariate_polynomial};

fn fr(v: i128) -> Fr {
    Fr::from_i128(v)
}

fn frs(v: &[i128]) -> Vec<Fr> {
    v.iter().map(|x| fr(*x)).collect()
}

fn ints(v: &[Fr]) -> Vec<i128> {
    v.iter().map(|x| f_to_int(*x)).collect()
}

fn dense(n: usize, v: &[i128]) -> DenseMLPoly {
    DenseMLPoly::new(n, frs(v))
}

/// The multilinear extension of a table of integers at an integer point, from its definition.
fn extension(table: &[i128], point: &[i128]) -> i128 {
    let mut sum = 0;
    for (i, t) in table.iter().enumerate() {
        let mut w = *t;
        for (k, x) in point.iter().enumerate() {
            w *= if (i >> k) & 1 == 1 { *x } else { 1 - *x };
        }
        sum += w;
    }
    sum
}

const TABLE: [i128; 8] = [3, -1, 4, 1, -5, 9, 2, 6];

#[test]
fn value_at_a_point() {
    let p = dense(3, &TABLE);
    assert_eq!(f_to_int(p.evaluate_at_point(&frs(&[2, 3, 5]))), extension(&TABLE, &[2, 3, 5]));
    assert_eq!(f_to_int(p.evaluate_at_point(&frs(&[1, 0, 1]))), 9);
    assert_eq!(
        f_to_int(evaluate_multilinear_extension(&frs(&TABLE), &frs(&[2, 3, 5]))),
        extension(&TABLE, &[2, 3, 5])
    );
    assert_eq!(p.len(), 8);
    assert!(!p.is_empty());
    assert_eq!(f_to_int(interpolate(fr(10), fr(14), fr(3))), 22);
}

#[test]
fn weights_of_a_point() {
    let point = frs(&[2, 3]);
    let expected = vec![2, -4, -3, 6];
    assert_eq!(ints(&evaluate_lagrange_basis(&point)), expected);
    assert_eq!(ints(&precompute_eq(&point)), expected);
    assert_eq!(ints(&evaluate_lagrange_basis(&[])), vec![1]);
}

#[test]
fn fixing_first_and_last_variables() {
    let p = dense(3, &TABLE);
    let low = p.fix_variables(&frs(&[7]));
    let expected: Vec<i128> = (0..4).map(|b| extension(&TABLE, &[7, b & 1, b >> 1])).collect();
    assert_eq!(low.n, 2);
    assert_eq!(ints(&low.evaluations), expected);
    assert_eq!(ints(&p.partial_evaluation(&frs(&[7])).evaluations), expected);
    let high = fix_variables_from_right(&p, &frs(&[7]));
    let expected: Vec<i128> = (0..4).map(|b| extension(&TABLE, &[b & 1, b >> 1, 7])).collect();
    assert_eq!(ints(&high.evaluations), expected);
    assert_eq!(ints(&fix_variables_from_right(&p, &[]).evaluations), TABLE.to_vec());
    // Fixing in two steps is fixing at once.
    let twice = p.fix_variables(&frs(&[7])).fix_variables(&frs(&[4]));
    assert_eq!(ints(&twice.evaluations), ints(&p.fix_variables(&frs(&[7, 4])).evaluations));
}

#[test]
fn fixing_variables_anywhere() {
    let p = dense(3, &TABLE);
    let middle = fix_many(&p, &[(1, fr(6))]);
    let expected: Vec<i128> = (0..4).map(|b| extension(&TABLE, &[b & 1, 6, b >> 1])).collect();
    assert_eq!(ints(&middle.evaluations), expected);
    let ends = fix_many(&p, &[(2, fr(5)), (0, fr(6))]);
    let expected: Vec<i128> = (0..2).map(|b| extension(&TABLE, &[6, b, 5])).collect();
    assert_eq!(ints(&ends.evaluations), expected);
    assert_eq!(ints(&fix_many(&p, &[]).evaluations), TABLE.to_vec());
    let points = frs(&[4, 5]);
    let blocks = [FixedBlock { start: 1, points: &points }];
    let expected: Vec<i128> = (0..2).map(|b| extension(&TABLE, &[b, 4, 5])).collect();
    assert_eq!(ints(&fix_blocks(&p, &blocks).evaluations), expected);
}

#[test]
fn fixing_variables_of_small_integers() {
    let out = fix_variables_zkgpt(3, &TABLE, &frs(&[7, 4]), 4);
    let expected: Vec<i128> = (0..2).map(|b| extension(&TABLE, &[7, 4, b])).collect();
    assert_eq!(out.n, 1);
    assert_eq!(ints(&out.evaluations), expected);
    assert_eq!(ints(&fix_variables_zkgpt(3, &TABLE, &[], 4).evaluations), TABLE.to_vec());
    // The same as for the polynomial of the field elements.
    for point in [vec![], vec![7], vec![7, 4], vec![7, 4, -2]] {
        let dense = dense(3, &TABLE).fix_variables(&frs(&point));
        let small = fix_variables_zkgpt(3, &TABLE, &frs(&point), 4);
        assert_eq!(small.n, dense.n);
        assert_eq!(ints(&small.evaluations), ints(&dense.evaluations));
    }
}

#[test]
fn arithmetic_of_tables() {
    let p = dense(2, &[1, 2, 3, 4]);
    let q = dense(2, &[10, 20, 30, 40]);
    assert_eq!(ints(&p.add(&q).evaluations), vec![11, 22, 33, 44]);
    assert_eq!(ints(&p.mul_by_scalar(fr(-2)).evaluations), vec![-2, -4, -6, -8]);
    assert_eq!(ints(&p.add_by_scalar(fr(5)).evaluations), vec![6, 7, 8, 9]);
    let one = dense(1, &[100, 200]);
    assert_eq!(ints(&add_broadcast(&p, &one).evaluations), vec![101, 202, 103, 204]);
    assert_eq!(ints(&add_broadcast(&one, &p).evaluations), vec![101, 202, 103, 204]);
    let constant = dense(0, &[7]);
    assert_eq!(ints(&add_broadcast(&constant, &p).evaluations), vec![8, 9, 10, 11]);
    let longer = dense(1, &[5, 6]).extend_number_of_variables(2);
    assert_eq!(longer.n, 2);
    assert_eq!(ints(&longer.evaluations), vec![5, 6, 0, 0]);
    assert_eq!(ints(p.get_partial_evaluation_for_boolean_input(1, 2)), vec![3, 4]);
    assert_eq!(DenseMLPoly::from_evaluations(frs(&TABLE)).n, 3);
    assert_eq!(DenseMLPoly::from_evaluations_slice(3, &frs(&TABLE)).n, 3);
    let mut changed = dense(1, &[5, 6]);
    *changed.index_mut(1) = fr(9);
    assert_eq!(ints(&changed.evaluations), vec![5, 9]);
    assert_eq!(f_to_int(changed.index(0)), 5);
}

#[test]
fn tables_of_lookups() {
    assert_eq!(ints(&range_dense(3).evaluations), vec![0, 1, 2, 3, 4, 5, 6, 7]);
    let powers = two_pow_dense(4);
    assert_eq!(f_to_int(powers.evaluations[0]), 32768);
    assert_eq!(f_to_int(powers.evaluations[15]), 1);
    assert_eq!(ints(&pad_at_start(&frs(&[1, 2]), 4)), vec![0, 0, 1, 2]);
    assert_eq!(ints(&pad_at_start(&frs(&[1, 2, 3]), 2)), vec![1, 2, 3]);
}

#[test]
fn interpolation_in_few_and_many_points() {
    // x^2 + 1
    assert_eq!(f_to_int(evaluate_univariate_polynomial(&frs(&[1, 2, 5]), fr(10))), 101);
    // x^5
    let fifth = frs(&[0, 1, 32, 243, 1024, 3125]);
    assert_eq!(f_to_int(evaluate_univariate_polynomial(&fifth, fr(7))), 16807);
    assert_eq!(f_to_int(evaluate_univariate_polynomial(&fifth, fr(3))), 243);
    assert_eq!(f_to_int(evaluate_univariate_polynomial(&frs(&[8]), fr(7))), 8);
    assert_eq!(f_to_int(evaluate_univariate_polynomial(&frs(&[8, 10]), fr(-3))), 2);
    assert_eq!(f_to_int(evaluate_univariate_polynomial(&frs(&[0, 1, 8, 27]), fr(-2))), -8);
}

#[test]
fn inverses_at_once() {
    let xs = frs(&[2, -3, 1, 65537]);
    let inverses = batch_invert(&xs);
    for (x, y) in xs.iter().zip(inverses.iter()) {
        assert!(x.mul(*y).equals(&Fr::one()));
    }
    assert!(batch_invert(&Vec::new()).is_empty());
}

#[test]
fn bytes_of_words() {
    assert_eq!(usize_to_le_vec(0), vec![0]);
    assert_eq!(usize_to_le_vec(0x1_02), vec![2, 1]);
    assert_eq!(le_vec_to_usize(&[2, 1]), 0x102);
    assert_eq!(le_vec_to_usize(&usize_to_le_vec(123456789)), 123456789);
    assert_eq!(extract_low_bits(&[0xff, 0xff], 10), vec![0xff, 0x03]);
    assert_eq!(extract_low_bits(&[0xff, 0xff], 0), vec![0]);
    assert_eq!(extract_low_bits(&[0xff], 20), vec![0xff]);
    assert_eq!(right_shift_le_vec(&[0, 4], 9), vec![2]);
    assert_eq!(right_shift_le_vec(&[7, 0], 0), vec![7, 0]);
    assert_eq!(right_shift_le_vec(&[7], 3), vec![0]);
}

fn sparse(n: usize, entries: &[(usize, i128)]) -> SparseMLPoly {
    let map: HashMap<usize, Fr> = entries.iter().map(|(k, v)| (*k, fr(*v))).collect();
    let mut r = SparseMLPoly::new(
        n,
        map,
        VecDeque::new(),
        SelectionPolynomial::new(0, n, Vec::new()),
    );
    r.build_sorted_indices();
    r
}

#[test]
fn sparse_polynomials_are_dense_ones() {
    let p = sparse(3, &[(1, 4), (6, -3)]);
    let table = [0, 4, 0, 0, 0, 0, -3, 0];
    assert_eq!(ints(&p.evaluations()), table.to_vec());
    assert_eq!(ints(&p.to_dense().evaluations), table.to_vec());
    assert_eq!(f_to_int(p.evaluate_at_point(&frs(&[2, 3, 5]))), extension(&table, &[2, 3, 5]));
    assert_eq!(p.len(), 2);
    assert!(!p.is_empty());
    // As a polynomial it has a value for each boolean point.
    assert_eq!(MLPoly::len(&p), 8);
    assert_eq!(MLPoly::len(&sparse(1, &[])), 2);
    assert_eq!(MLPoly::len(&p.to_dense()), 8);
    let fixed = p.fix_variables(&frs(&[7]));
    let expected: Vec<i128> = (0..4).map(|b| extension(&table, &[7, b & 1, b >> 1])).collect();
    assert_eq!(ints(&fixed.evaluations()), expected);
    assert_eq!(ints(&p.mul_by_scalar(fr(5)).evaluations()), vec![0, 20, 0, 0, 0, 0, -15, 0]);
    let q = sparse(3, &[(1, 1), (2, 2)]);
    assert_eq!(ints(&p.add(&q).evaluations()), vec![0, 5, 2, 0, 0, 0, -3, 0]);
    assert_eq!(f_to_int(p.index(6)), -3);
    assert_eq!(f_to_int(p.index(0)), 0);
    let mut changed = p.clone();
    assert_eq!(f_to_int(*MLPoly::index_mut(&mut changed, 2)), 0);
    *MLPoly::index_mut(&mut changed, 2) = fr(9);
    *changed.index_mut(6) = fr(5);
    assert_eq!(ints(&changed.evaluations()), vec![0, 4, 9, 0, 0, 0, 5, 0]);
    let mut changed = dense(1, &[1, 2]);
    *MLPoly::index_mut(&mut changed, 1) = fr(7);
    assert_eq!(ints(&changed.evaluations), vec![1, 7]);
}

#[test]
fn selections_split_into_blocks() {
    // The table position 11 is the digits 3 and 2 of two bits each, lowest first.
    let s = SelectionPolynomial::new(1, 4, vec![(0, 11), (1, 6)]).to_sparse();
    let blocks = s.split_into_blocks(2);
    assert_eq!(blocks.len(), 2);
    assert_eq!(blocks[0].selection.selection, vec![(0, 3), (1, 2)]);
    assert_eq!(blocks[1].selection.selection, vec![(0, 2), (1, 1)]);
    for (j, (_, position)) in s.selection.selection.iter().enumerate() {
        let low = blocks[0].selection.selection[j].1;
        let high = blocks[1].selection.selection[j].1;
        assert_eq!(low + 4 * high, *position);
    }
    assert_eq!(f_to_int(blocks[0].index(3 * 2)), 1);
    assert_eq!(f_to_int(blocks[1].index(1 + 2)), 1);
    // The whole is the product of the blocks.
    for i in 0..2 {
        for t in 0..16 {
            let product = blocks[0].index(i + 2 * (t % 4)).mul(blocks[1].index(i + 2 * (t / 4)));
            assert!(product.equals(&s.index(i + 2 * t)));
        }
    }
}

#[test]
fn selections_are_one_where_they_select() {
    let s = SelectionPolynomial::new(1, 2, vec![(0, 3), (1, 2)]).to_sparse();
    assert_eq!(s.n, 3);
    assert_eq!(ints(&s.evaluations()), vec![0, 0, 0, 0, 0, 1, 1, 0]);
}

#[test]
fn both_kinds_of_polynomials_agree() {
    let p = sparse(2, &[(1, 4), (2, -3)]);
    let d = p.to_dense();
    let point = frs(&[9, -4]);
    let a = MLPoly::evaluate_at_point(&p, &point);
    let b = MLPoly::evaluate_at_point(&d, &point);
    assert!(a.equals(&b));
    assert_eq!(MLPoly::n(&p), MLPoly::n(&d));
    assert_eq!(MLPoly::len(&d), 4);
    assert_eq!(ints(&MLPoly::evaluations(&p)), ints(&MLPoly::evaluations(&d)));
}
