use zktransformer::arith::{
    calc_pow, f_to_int, get_n, log2_ceil, power_of_two, round_div, scaled_ln2, scaled_ln2_single,
};
use zktransformer::double::{double_div, to_double};
use zktransformer::field::{CryptoField, Fr};

fn ints(v: &[Fr]) -> Vec<i128> {
    v.iter().map(|x| f_to_int(*x)).collect()
}

#[test]
fn field_arithmetic_wraps_at_the_order() {
    let five = Fr::from_u64(5);
    let seven = Fr::from_i128(7);
    assert_eq!(f_to_int(five.add(seven)), 12);
    assert_eq!(f_to_int(five.sub(seven)), -2);
    assert_eq!(f_to_int(five.mul(seven)), 35);
    assert_eq!(f_to_int(Fr::from_i128(-9)), -9);
    assert!(Fr::from_i128(-1).add(Fr::one()).equals(&Fr::zero()));
    assert!(!five.equals(&seven));
}

#[test]
fn powers_start_at_one() {
    assert_eq!(ints(&calc_pow(Fr::from_u64(3), 5)), vec![1, 3, 9, 27, 81]);
    assert_eq!(ints(&calc_pow(Fr::from_u64(3), 0)), Vec::<i128>::new());
}

#[test]
fn index_bits_of_dimensions() {
    assert_eq!(log2_ceil(0), 0);
    assert_eq!(log2_ceil(1), 0);
    assert_eq!(log2_ceil(2), 1);
    assert_eq!(log2_ceil(5), 3);
    assert_eq!(log2_ceil(768), 10);
    assert_eq!(get_n(&[3, 5]), 5);
    assert_eq!(get_n(&[]), 0);
}

#[test]
fn rounding_goes_away_from_zero_at_halves() {
    assert_eq!(round_div(7, 2), 4);
    assert_eq!(round_div(-7, 2), -4);
    assert_eq!(round_div(5, 3), 2);
    assert_eq!(round_div(4, 3), 1);
    assert_eq!(round_div(-4, 3), -1);
}

#[test]
fn logarithm_of_two_in_fixed_point() {
    assert_eq!(scaled_ln2(15), (std::f64::consts::LN_2 * 32768.0).round() as u64);
    assert_eq!(scaled_ln2(0), 1);
    assert_eq!(scaled_ln2_single(15), (std::f32::consts::LN_2 * 32768.0).round() as u64);
    assert_eq!(power_of_two(20), 1 << 20);
}

#[test]
fn quotients_in_double_precision() {
    let doubles = |x: i128, c: usize| (x as f64 / c as f64).round() as i128;
    let mut x: i128 = 1;
    for i in 0..123u32 {
        for offset in [-3i128, -1, 0, 1, 2, 7] {
            for c in [1usize, 2, 3, 7, 10, 4096, 11008, (1 << 53) + 1, usize::MAX] {
                let v = x + offset;
                assert_eq!(double_div(v, c), doubles(v, c));
                assert_eq!(double_div(-v, c), doubles(-v, c));
                let odd = (v >> 1) * 3 / 2 + i as i128;
                assert_eq!(double_div(odd, c), doubles(odd, c));
            }
        }
        x *= 2;
    }
    assert_eq!(to_double((1 << 53) + 1), 1 << 53);
    assert_eq!(to_double((1 << 53) + 3), (1 << 53) + 4);
    assert_eq!(double_div(7, 2), 4);
    assert_eq!(double_div(-7, 2), -4);
    assert_eq!(double_div(0, 9), 0);
}
