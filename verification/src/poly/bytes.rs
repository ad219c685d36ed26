//! Little-endian byte strings as unsigned integers.
use crate::field::{le_bytes_value, lemma_le_bytes_zeros};
use crate::math::{lemma_div_mod, lemma_div_mod_unique, lemma_pow2_small};
use vstd::arithmetic::power2::pow2;
use vstd::prelude::*;

verus! {

/// The bytes end in a non-zero byte or are a single byte.
pub open spec fn minimal(bytes: Seq<u8>) -> bool {
    bytes.len() == 1 || bytes.len() > 1 && bytes.last() != 0
}

/// The shortest little-endian bytes of a word, at least one.
pub fn usize_to_le_vec(value: usize) -> (r: Vec<u8>)
    ensures
        le_bytes_value(r@) == value,
        minimal(r@),
{
    let mut r: Vec<u8> = Vec::new();
    let mut rest = value;
    r.push((rest % 256) as u8);
    rest = rest / 256;
    proof {
        lemma_value_push(Seq::<u8>::empty(), r@[0]);
        assert(Seq::<u8>::empty().push(r@[0]) =~= r@);
        vstd::arithmetic::power2::lemma2_to64();
        let b = r@[0] as int;
        assert(b * 1 == b) by (nonlinear_arith);
        assert(8 * r@.len() == 8);
    }
    while rest > 0
        invariant
            r@.len() >= 1,
            le_bytes_value(r@) + rest * pow2(8 * r@.len()) == value,
            rest == 0 ==> minimal(r@),
        decreases rest,
    {
        let ghost before = r@;
        let byte = (rest % 256) as u8;
        r.push(byte);
        proof {
            lemma_value_push(before, byte);
            let p = pow2(8 * before.len()) as int;
            vstd::arithmetic::power2::lemma_pow2_adds(8 * before.len(), 8);
            vstd::arithmetic::power2::lemma2_to64();
            assert(8 * r@.len() == 8 * before.len() + 8);
            let q = (rest / 256) as int;
            let b = byte as int;
            assert((q * 256 + b) * p == b * p + q * (p * 256)) by (nonlinear_arith);
        }
        rest = rest / 256;
    }
    proof {
        let p = pow2(8 * r@.len()) as int;
        assert(0 * p == 0) by (nonlinear_arith);
    }
    r
}

/// One more byte at the high end.
pub proof fn lemma_value_push(bytes: Seq<u8>, b: u8)
    ensures
        le_bytes_value(bytes.push(b)) == le_bytes_value(bytes) + b * pow2(8 * bytes.len()),
    decreases bytes.len(),
{
    let longer = bytes.push(b);
    vstd::arithmetic::power2::lemma2_to64();
    if bytes.len() == 0 {
        assert(longer.skip(1) =~= Seq::<u8>::empty());
        assert(le_bytes_value(longer.skip(1)) == 0);
        assert(b * 1 == b) by (nonlinear_arith);
    } else {
        let t = bytes.skip(1);
        lemma_value_push(t, b);
        assert(longer.skip(1) =~= t.push(b));
        vstd::arithmetic::power2::lemma_pow2_adds(8, 8 * t.len());
        assert(8 * bytes.len() == 8 + 8 * t.len());
        let p = pow2(8 * t.len()) as int;
        let c = b as int;
        assert(256 * (c * p) == c * (256 * p)) by (nonlinear_arith);
    }
}

/// A byte string stands for an integer below two to its number of bits.
pub proof fn lemma_value_bound(bytes: Seq<u8>)
    ensures
        0 <= le_bytes_value(bytes) < pow2(8 * bytes.len()),
    decreases bytes.len(),
{
    vstd::arithmetic::power2::lemma2_to64();
    if bytes.len() > 0 {
        let t = bytes.skip(1);
        lemma_value_bound(t);
        vstd::arithmetic::power2::lemma_pow2_adds(8, 8 * t.len());
        assert(8 * bytes.len() == 8 + 8 * t.len());
    }
}

/// Byte strings of one length stand for different integers unless they are equal.
pub proof fn lemma_value_determines(a: Seq<u8>, b: Seq<u8>)
    requires
        a.len() == b.len(),
        le_bytes_value(a) == le_bytes_value(b),
    ensures
        a == b,
    decreases a.len(),
{
    if a.len() > 0 {
        assert(a[0] == b[0] && le_bytes_value(a.skip(1)) == le_bytes_value(b.skip(1)));
        lemma_value_determines(a.skip(1), b.skip(1));
        assert forall|i: int| 0 <= i < a.len() implies a[i] == b[i] by {
            if i > 0 {
                assert(a[i] == a.skip(1)[i - 1]);
                assert(b[i] == b.skip(1)[i - 1]);
            }
        }
    }
    assert(a =~= b);
}

/// The bytes below and from position `k` on.
pub proof fn lemma_value_split(bytes: Seq<u8>, k: nat)
    requires
        k <= bytes.len(),
    ensures
        le_bytes_value(bytes) == le_bytes_value(bytes.take(k as int)) + le_bytes_value(
            bytes.skip(k as int),
        ) * pow2(8 * k),
        le_bytes_value(bytes.skip(k as int)) == le_bytes_value(bytes) / pow2(8 * k) as int,
        le_bytes_value(bytes.take(k as int)) == le_bytes_value(bytes) % pow2(8 * k) as int,
    decreases k,
{
    vstd::arithmetic::power2::lemma2_to64();
    if k == 0 {
        assert(bytes.skip(0) =~= bytes);
        assert(bytes.take(0) =~= Seq::<u8>::empty());
        let v = le_bytes_value(bytes);
        assert(v * 1 == v) by (nonlinear_arith);
    } else {
        let j = (k - 1) as nat;
        lemma_value_split(bytes, j);
        let rest = bytes.skip(j as int);
        assert(rest.skip(1) =~= bytes.skip(k as int));
        assert(bytes.take(k as int) =~= bytes.take(j as int).push(bytes[j as int]));
        lemma_value_push(bytes.take(j as int), bytes[j as int]);
        vstd::arithmetic::power2::lemma_pow2_adds(8 * j, 8);
        assert(8 * k == 8 * j + 8);
        let p = pow2(8 * j) as int;
        let b = bytes[j as int] as int;
        let q = le_bytes_value(bytes.skip(k as int));
        assert((b + 256 * q) * p == b * p + q * (p * 256)) by (nonlinear_arith);
        lemma_value_bound(bytes.take(k as int));
        lemma_div_mod_unique(
            le_bytes_value(bytes),
            pow2(8 * k) as int,
            q,
            le_bytes_value(bytes.take(k as int)),
        );
    }
}

/// The word that little-endian bytes stand for.
pub fn le_vec_to_usize(value: &[u8]) -> (r: usize)
    requires
        8 * value@.len() <= usize::BITS,
    ensures
        r == le_bytes_value(value@),
{
    let mut result: usize = 0;
    let mut i: usize = value.len();
    proof {
        assert(value@.skip(value@.len() as int) =~= Seq::<u8>::empty());
        vstd::layout::unsigned_int_max_values();
    }
    while i > 0
        invariant
            i <= value@.len(),
            8 * value@.len() <= usize::BITS,
            result == le_bytes_value(value@.skip(i as int)),
            usize::MAX as nat == pow2(usize::BITS as nat) - 1,
        decreases i,
    {
        i -= 1;
        proof {
            let rest = value@.skip(i as int);
            assert(rest.skip(1) =~= value@.skip(i + 1));
            lemma_value_bound(rest);
            crate::math::lemma_pow2_mono(8 * rest.len(), usize::BITS as nat);
        }
        result = value[i] as usize + 256 * result;
    }
    assert(value@.skip(0) =~= value@);
    result
}

/// The low `bits` bits of a little-endian number: `number % 2^bits`.
pub fn extract_low_bits(number: &[u8], bits: usize) -> (r: Vec<u8>)
    ensures
        le_bytes_value(r@) == le_bytes_value(number@) % pow2(bits as nat) as int,
        bits == 0 ==> r@ == seq![0u8],
        bits > 0 ==> r@.len() == (if bits as int / 8 + (if bits % 8 > 0 {
            1int
        } else {
            0int
        }) < number@.len() {
            bits as int / 8 + (if bits % 8 > 0 {
                1int
            } else {
                0int
            })
        } else {
            number@.len() as int
        }),
{
    let mut result: Vec<u8> = Vec::new();
    if bits == 0 {
        result.push(0);
        proof {
            lemma_pow2_small();
            assert(result@.skip(1) =~= Seq::<u8>::empty());
            assert(le_bytes_value(result@.skip(1)) == 0);
        }
        return result;
    }
    let full_bytes: usize = bits / 8;
    let remaining_bits: usize = bits % 8;
    let limit: usize = if full_bytes < number.len() {
        full_bytes
    } else {
        number.len()
    };
    let mut i: usize = 0;
    while i < limit
        invariant
            i <= limit,
            limit <= number@.len(),
            result@ == number@.take(i as int),
        decreases limit - i,
    {
        result.push(number[i]);
        i += 1;
    }
    let ghost v = le_bytes_value(number@);
    if full_bytes < number.len() {
        proof {
            lemma_value_split(number@, full_bytes as nat);
        }
        if remaining_bits > 0 {
            let modulus: u8 = low_mask(remaining_bits);
            let byte = number[full_bytes] % modulus;
            proof {
                let k = full_bytes as nat;
                let p = pow2(8 * k) as int;
                let w = pow2(remaining_bits as nat) as int;
                let rest = number@.skip(k as int);
                let t = rest.skip(1);
                lemma_value_bound(number@);
                lemma_value_push(result@, byte);
                vstd::arithmetic::power2::lemma_pow2_adds(8 * k, remaining_bits as nat);
                vstd::arithmetic::power2::lemma_pow2_pos(8 * k);
                vstd::arithmetic::power2::lemma_pow2_pos(remaining_bits as nat);
                vstd::arithmetic::div_mod::lemma_breakdown(v, p, w);
                // (v / p) % w is the masked byte
                let high = le_bytes_value(t);
                assert(le_bytes_value(rest) == number@[k as int] + 256 * high);
                vstd::arithmetic::power2::lemma2_to64();
                let u = pow2((8 - remaining_bits) as nat) as int;
                vstd::arithmetic::power2::lemma_pow2_adds(
                    remaining_bits as nat,
                    (8 - remaining_bits) as nat,
                );
                let b = number@[k as int] as int;
                assert(256 * high == w * (u * high)) by (nonlinear_arith)
                    requires
                        w * u == 256,
                ;
                vstd::arithmetic::div_mod::lemma_mod_multiples_vanish(u * high, b, w);
                let c = byte as int;
                assert(p * c == c * p) by (nonlinear_arith);
            }
            result.push(byte);
        }
    } else {
        proof {
            assert(number@.take(number@.len() as int) =~= number@);
            lemma_value_bound(number@);
            crate::math::lemma_pow2_mono(8 * number@.len(), bits as nat);
            vstd::arithmetic::div_mod::lemma_small_mod(v as nat, pow2(bits as nat));
        }
    }
    result
}

/// `2^k` for `k` in `1..8`.
fn low_mask(k: usize) -> (r: u8)
    requires
        1 <= k < 8,
    ensures
        r == pow2(k as nat),
        r > 0,
{
    proof {
        vstd::arithmetic::power2::lemma2_to64();
    }
    if k == 1 {
        2
    } else if k == 2 {
        4
    } else if k == 3 {
        8
    } else if k == 4 {
        16
    } else if k == 5 {
        32
    } else if k == 6 {
        64
    } else {
        128
    }
}

/// A little-endian number shifted right by `bits` bits: `number / 2^bits`. A shift by no bits gives
/// the bytes back as they are; any other result is minimal.
pub fn right_shift_le_vec(number: &[u8], bits: usize) -> (r: Vec<u8>)
    ensures
        le_bytes_value(r@) == le_bytes_value(number@) / pow2(bits as nat) as int,
        bits == 0 ==> r@ == number@,
        bits > 0 ==> minimal(r@),
{
    let ghost v = le_bytes_value(number@);
    if bits == 0 {
        let mut copy: Vec<u8> = Vec::new();
        let mut i: usize = 0;
        while i < number.len()
            invariant
                i <= number@.len(),
                copy@ == number@.take(i as int),
            decreases number.len() - i,
        {
            copy.push(number[i]);
            i += 1;
        }
        proof {
            assert(copy@ =~= number@);
            lemma_pow2_small();
            vstd::arithmetic::div_mod::lemma_div_basics(v);
        }
        return copy;
    }
    let byte_shift: usize = bits / 8;
    let bit_shift: usize = bits % 8;
    if byte_shift >= number.len() {
        let mut zero: Vec<u8> = Vec::new();
        zero.push(0);
        proof {
            assert(zero@.skip(1) =~= Seq::<u8>::empty());
            assert(le_bytes_value(zero@.skip(1)) == 0);
            lemma_value_bound(number@);
            crate::math::lemma_pow2_mono(8 * number@.len(), bits as nat);
            vstd::arithmetic::div_mod::lemma_basic_div(v, pow2(bits as nat) as int);
        }
        return zero;
    }
    let low: u16 = if bit_shift == 0 {
        1
    } else {
        low_mask(bit_shift) as u16
    };
    let ghost w = low as int;
    let ghost u = pow2((8 - bit_shift) as nat) as int;
    proof {
        vstd::arithmetic::power2::lemma2_to64();
        vstd::arithmetic::power2::lemma_pow2_adds(bit_shift as nat, (8 - bit_shift) as nat);
        assert(w == pow2(bit_shift as nat));
        assert(w * u == 256);
    }
    // Each byte takes its high bits from itself and its low bits from the byte above.
    let mut result: Vec<u8> = Vec::new();
    let mut i: usize = byte_shift;
    proof {
        lemma_value_split(number@, byte_shift as nat);
        assert(number@.subrange(byte_shift as int, byte_shift as int) =~= Seq::<u8>::empty());
    }
    let ghost src = number@.skip(byte_shift as int);
    assert(src.take(0) =~= Seq::<u8>::empty());
    let ghost s = le_bytes_value(src);
    while i < number.len()
        invariant
            byte_shift <= i <= number@.len(),
            src == number@.skip(byte_shift as int),
            s == le_bytes_value(src),
            1 <= w <= 128,
            w == low,
            w * u == 256,
            result@.len() == i - byte_shift,
            // The bytes so far are the low bytes of the quotient.
            le_bytes_value(result@) == (s / w) % pow2(8 * result@.len()) as int,
        decreases number.len() - i,
    {
        let current = number[i] as u16;
        let above: u16 = if i + 1 < number.len() {
            number[i + 1] as u16
        } else {
            0
        };
        proof {
            assert(current + 256 * above <= 65535);
        }
        let byte = (((current + 256 * above) / low) % 256) as u8;
        let ghost before = result@;
        result.push(byte);
        proof {
            let k = before.len();
            let p = pow2(8 * k) as int;
            lemma_value_push(before, byte);
            lemma_value_bound(src);
            vstd::arithmetic::div_mod::lemma_div_pos_is_pos(s, w);
            lemma_shift_byte(src, k, w, u, above as int);
            vstd::arithmetic::power2::lemma_pow2_pos(8 * k);
            vstd::arithmetic::power2::lemma_pow2_adds(8 * k, 8);
            vstd::arithmetic::power2::lemma2_to64();
            assert(8 * result@.len() == 8 * k + 8);
            vstd::arithmetic::div_mod::lemma_breakdown(s / w, p, 256);
            let c = byte as int;
            assert(p * c == c * p) by (nonlinear_arith);
        }
        i += 1;
    }
    proof {
        let k = result@.len();
        lemma_value_bound(src);
        lemma_div_mod(s, w);
        assert(0 <= s / w <= s) by (nonlinear_arith)
            requires
                s == (s / w) * w + s % w,
                0 <= s % w,
                w >= 1,
                s >= 0,
        ;
        vstd::arithmetic::div_mod::lemma_small_mod((s / w) as nat, pow2(8 * k));
        vstd::arithmetic::power2::lemma_pow2_adds(8 * byte_shift as nat, bit_shift as nat);
        vstd::arithmetic::power2::lemma_pow2_pos(8 * byte_shift as nat);
        vstd::arithmetic::div_mod::lemma_div_denominator(
            v,
            pow2(8 * byte_shift as nat) as int,
            w,
        );
        assert(pow2(bits as nat) == pow2(8 * byte_shift as nat) * pow2(bit_shift as nat));
    }
    while result.len() > 1 && result[result.len() - 1] == 0
        invariant
            result@.len() >= 1,
            le_bytes_value(result@) == v / pow2(bits as nat) as int,
        decreases result@.len(),
    {
        let ghost before = result@;
        result.pop();
        proof {
            lemma_le_bytes_zeros(before, before.len() - 1);
            assert(before.take(before.len() - 1) =~= result@);
        }
    }
    result
}

/// Byte `k` of a quotient by `w` comes from the bytes `k` and `k + 1` of the dividend.
proof fn lemma_shift_byte(src: Seq<u8>, k: nat, w: int, u: int, above: int)
    requires
        k < src.len(),
        1 <= w <= 128,
        w * u == 256,
        above == (if k + 1 < src.len() {
            src[k as int + 1] as int
        } else {
            0
        }),
    ensures
        ((src[k as int] + 256 * above) / w) % 256 == ((le_bytes_value(src) / w) / pow2(
            8 * k,
        ) as int) % 256,
{
    let s = le_bytes_value(src);
    let p = pow2(8 * k) as int;
    vstd::arithmetic::power2::lemma_pow2_pos(8 * k);
    lemma_value_bound(src);
    lemma_value_split(src, k);
    let rest = src.skip(k as int);
    let q = le_bytes_value(rest);
    // q = src[k] + 256 * (above + 256 * high)
    let t = rest.skip(1);
    let high = if k + 1 < src.len() {
        le_bytes_value(t.skip(1))
    } else {
        0
    };
    let two = src[k as int] + 256 * above;
    if k + 1 < src.len() {
        assert(t[0] == src[k as int + 1]);
        assert(le_bytes_value(t) == above + 256 * high);
    } else {
        assert(t =~= Seq::<u8>::empty());
        assert(le_bytes_value(t) == 0);
    }
    assert(rest[0] == src[k as int]);
    assert(q == two + 65536 * high);
    // (s / w) / p == (s / p) / w == q / w
    vstd::arithmetic::div_mod::lemma_div_denominator(s, w, p);
    vstd::arithmetic::div_mod::lemma_div_denominator(s, p, w);
    assert(w * p == p * w) by (nonlinear_arith);
    // q / w == two / w + u * 256 * high
    assert(65536 * high == w * (u * 256 * high)) by (nonlinear_arith)
        requires
            w * u == 256,
    ;
    vstd::arithmetic::div_mod::lemma_hoist_over_denominator(two, u * 256 * high, w as nat);
    assert(two / w + u * 256 * high == (two + (u * 256 * high) * w) / w);
    assert((u * 256 * high) * w == w * (u * 256 * high)) by (nonlinear_arith);
    assert(u * 256 * high == 256 * (u * high)) by (nonlinear_arith);
    vstd::arithmetic::div_mod::lemma_mod_multiples_vanish(u * high, two / w, 256);
}

/// Reading a word back from its bytes gives the word.
pub proof fn lemma_usize_bytes_round_trip(value: usize, bytes: Seq<u8>)
    requires
        le_bytes_value(bytes) == value,
        minimal(bytes),
    ensures
        8 * bytes.len() <= usize::BITS,
{
    if 8 * bytes.len() > usize::BITS {
        let k = (bytes.len() - 1) as nat;
        lemma_value_split(bytes, k);
        let top = bytes.skip(k as int);
        assert(top[0] == bytes.last());
        assert(top.skip(1) =~= Seq::<u8>::empty());
        assert(le_bytes_value(top.skip(1)) == 0);
        lemma_value_bound(bytes.take(k as int));
        vstd::layout::unsigned_int_max_values();
        assert(8 * k >= usize::BITS) by {
            assert(usize::BITS == 32 || usize::BITS == 64);
        }
        crate::math::lemma_pow2_mono(usize::BITS as nat, 8 * k);
        let b = bytes.last() as int;
        let p = pow2(8 * k) as int;
        assert(b * p >= p) by (nonlinear_arith)
            requires
                b >= 1,
                p >= 0,
        ;
    }
}

} // verus!
