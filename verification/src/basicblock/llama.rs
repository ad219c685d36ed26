//! The operations of transformer layers that go through real numbers.
//!
//! Where the real value is that of a quotient, it is rounded here. Where it is that of a root, an
//! exponential or a logarithm, the rounded integers come as advice.
use crate::arith::{
    ceil_log, f_to_int, get_n, is_small, lemma_ceil_log, lemma_nearest, log2_ceil, nearest, num_vars,
    power_of_two, round_div, signed,
};
use crate::basicblock::scale::{lemma_scaled_down, scaled_down};
use crate::basicblock::{entries_below, nothing_proved, BasicBlock};
use crate::double::{double_div, double_divided, lemma_double_divided};
use crate::field::{modulus, vals, CryptoField, Fr};
use crate::math::{sum_to, two_to};
use crate::sumcheck::prover::SumcheckProof;
use crate::transcript::Transcript;
use crate::witness::{copy_words, dense_value, Claim, Role, Witness};
use vstd::arithmetic::power2::pow2;
use vstd::prelude::*;

verus! {

/// A shape with its last dimension replaced by one.
pub open spec fn last_dropped(shape: Seq<usize>) -> Seq<usize> {
    shape.update(shape.len() - 1, 1)
}

/// Without its last dimension a shape has the index bits of the dimensions before.
pub proof fn lemma_last_dropped(shape: Seq<usize>)
    requires
        shape.len() >= 1,
    ensures
        num_vars(last_dropped(shape)) == num_vars(shape.drop_last()),
{
    assert(last_dropped(shape).drop_last() =~= shape.drop_last());
}

/// The table of numbers as field elements.
pub open spec fn number_table(numbers: Seq<i128>) -> Seq<int> {
    numbers.map_values(|v: i128| v as int % modulus())
}

/// The field elements of a list of numbers.
fn numbers_to_field(numbers: &[i128]) -> (r: Vec<Fr>)
    ensures
        vals(r@) =~= number_table(numbers@),
{
    let mut r: Vec<Fr> = Vec::with_capacity(numbers.len());
    let mut i: usize = 0;
    while i < numbers.len()
        invariant
            i <= numbers@.len(),
            r@.len() == i,
            forall|j: int| 0 <= j < i ==> (#[trigger] r@[j])@ == number_table(numbers@)[j],
        decreases numbers.len() - i,
    {
        r.push(Fr::from_i128(numbers[i]));
        i += 1;
    }
    r
}

/// The reciprocal of the root mean square along the last dimension. The advice holds one rounded
/// value for each group of entries.
#[derive(Clone, Copy, Debug)]
pub struct RMSReciprocal;

/// The sum of the squares of the first `count` entries of a group.
pub open spec fn square_sum(table: Seq<int>, group: int, step: int, count: int) -> int {
    sum_to(
        |k: int| signed(table[group + k * step]) * signed(table[group + k * step]),
        count,
    )
}

/// Sums of squares do not decrease.
proof fn lemma_square_sum(table: Seq<int>, group: int, step: int, a: int, b: int)
    requires
        0 <= a <= b,
    ensures
        0 <= square_sum(table, group, step, a) <= square_sum(table, group, step, b),
    decreases b,
{
    if a < b {
        lemma_square_sum(table, group, step, a, b - 1);
        let v = signed(table[group + (b - 1) * step]);
        assert(v * v >= 0) by (nonlinear_arith);
    } else if a > 0 {
        lemma_square_sum(table, group, step, a - 1, a - 1);
        let v = signed(table[group + (a - 1) * step]);
        assert(v * v >= 0) by (nonlinear_arith);
    }
}

/// The sum of the squares of the first `dim` entries of a group; nothing where it takes more than
/// 128 bits.
fn group_square_sum(x: &Witness, group: usize, step: usize, dim: usize) -> (r: Option<u128>)
    requires
        x.filled(),
        group < step,
        dim * step <= x.values().len(),
        entries_below(x.values(), 0x1000_0000_0000_0000_0000_0000_0000_0000),
    ensures
        r is Some <==> square_sum(x.values(), group as int, step as int, dim as int) <= u128::MAX,
        r is Some ==> r->0 == square_sum(x.values(), group as int, step as int, dim as int),
{
    let poly = x.data.as_ref().unwrap();
    let ghost (t, g, s) = (x.values(), group as int, step as int);
    proof {
        vstd::bits::lemma_usize_pow2_no_overflow(poly.vars());
    }
    let mut sum: u128 = 0;
    let mut k: usize = 0;
    while k < dim
        invariant
            k <= dim,
            x.filled(),
            *poly == x.data->0,
            t == x.values(),
            g == group,
            s == step,
            group < step,
            dim * step <= x.values().len(),
            x.values().len() == pow2(poly.vars()),
            pow2(poly.vars()) <= usize::MAX,
            entries_below(x.values(), 0x1000_0000_0000_0000_0000_0000_0000_0000),
            sum == square_sum(t, g, s, k as int),
        decreases dim - k,
    {
        proof {
            let (n, i) = (dim as int, k as int);
            assert(i * s + s <= n * s && 0 <= i * s) by (nonlinear_arith)
                requires
                    0 <= i,
                    i + 1 <= n,
                    s >= 0,
            ;
            lemma_square_sum(t, g, s, k as int, k as int);
            lemma_square_sum(t, g, s, k + 1, dim as int);
        }
        let at = group + k * step;
        assert(is_small(x.values()[at as int]));
        let v = f_to_int(poly.index(at));
        let size: u128 = if v < 0 {
            (-v) as u128
        } else {
            v as u128
        };
        proof {
            let (a, b) = (v as int, size as int);
            assert(a * a == b * b) by (nonlinear_arith)
                requires
                    a == b || a == -b,
            ;
            assert(square_sum(t, g, s, k + 1) == sum + a * a);
        }
        let square = match size.checked_mul(size) {
            None => {
                return None;
            },
            Some(square) => square,
        };
        sum = match sum.checked_add(square) {
            None => {
                return None;
            },
            Some(sum) => sum,
        };
        k += 1;
    }
    Some(sum)
}

/// The sums of the squares of the entries along the last dimension, one for each group. Only the
/// entries of the dimension itself count, not those of its padding. There are none where a sum takes
/// more than 128 bits.
pub fn square_sums(x: &Witness) -> (r: Option<Vec<u128>>)
    requires
        x.filled(),
        x.shape@.len() >= 1,
        entries_below(x.values(), 0x1000_0000_0000_0000_0000_0000_0000_0000),
    ensures
        ({
            let step = pow2(num_vars(x.shape@.drop_last())) as int;
            let dim = x.shape@.last() as int;
            &&& r is Some <==> forall|g: int|
                0 <= g < step ==> #[trigger] square_sum(x.values(), g, step, dim) <= u128::MAX
            &&& r is Some ==> r->0@.len() == step && forall|g: int|
                0 <= g < step ==> #[trigger] r->0@[g] == square_sum(x.values(), g, step, dim)
        }),
{
    let last = x.shape.len() - 1;
    let dim = x.shape[last];
    let bits = get_n(x.shape.as_slice()) - log2_ceil(dim);
    let step = two_to(bits);
    proof {
        let l = ceil_log(dim as int);
        assert(bits == num_vars(x.shape@.drop_last()));
        lemma_ceil_log(dim as int);
        vstd::arithmetic::power2::lemma_pow2_adds(bits as nat, l);
        let (a, b, c) = (dim as int, pow2(l) as int, step as int);
        assert(a * c <= c * b) by (nonlinear_arith)
            requires
                a <= b,
                c >= 0,
        ;
    }
    let mut sums: Vec<u128> = Vec::with_capacity(step);
    let mut g: usize = 0;
    while g < step
        invariant
            g <= step,
            step == pow2(num_vars(x.shape@.drop_last())),
            dim == x.shape@.last(),
            x.filled(),
            dim * step <= x.values().len(),
            entries_below(x.values(), 0x1000_0000_0000_0000_0000_0000_0000_0000),
            sums@.len() == g,
            forall|h: int|
                0 <= h < g ==> #[trigger] sums@[h] == square_sum(
                    x.values(),
                    h,
                    step as int,
                    dim as int,
                ),
        decreases step - g,
    {
        match group_square_sum(x, g, step, dim) {
            None => {
                return None;
            },
            Some(sum) => {
                sums.push(sum);
            },
        }
        g += 1;
    }
    proof {
        let (s, d) = (step as int, dim as int);
        assert forall|h: int| 0 <= h < s implies #[trigger] square_sum(x.values(), h, s, d)
            <= u128::MAX by {
            assert(sums@[h] == square_sum(x.values(), h, s, d));
        }
    }
    Some(sums)
}

impl BasicBlock for RMSReciprocal {
    open spec fn can_run(&self, inputs: Seq<&Witness>, advice: Seq<i128>) -> bool {
        &&& inputs.len() >= 1
        &&& inputs[0].shape@.len() >= 1
        &&& num_vars(inputs[0].shape@) < usize::BITS
        &&& advice.len() == pow2(num_vars(last_dropped(inputs[0].shape@)))
    }

    open spec fn ran(
        &self,
        inputs: Seq<&Witness>,
        advice: Seq<i128>,
        outputs: Seq<Witness>,
    ) -> bool {
        &&& outputs.len() == 1
        &&& outputs[0]@ == dense_value(
            last_dropped(inputs[0].shape@),
            number_table(advice),
            inputs[0].data_type,
            inputs[0].sf,
            Role::Auxiliary,
        )
    }

    fn run(&self, inputs: &[&Witness], advice: &[i128]) -> (r: Vec<Witness>) {
        let x = inputs[0];
        let mut y_shape = copy_words(x.shape.as_slice());
        let last = y_shape.len() - 1;
        y_shape.set(last, 1);
        proof {
            lemma_last_dropped(x.shape@);
        }
        let data = numbers_to_field(advice);
        let y = Witness::new(y_shape, data, x.data_type, x.sf, Role::Auxiliary);
        let mut r: Vec<Witness> = Vec::new();
        r.push(y);
        r
    }

    open spec fn can_prove(
        &self,
        witnesses: Seq<&Witness>,
        edge_ids: Seq<usize>,
        out_claims: Seq<&Claim>,
    ) -> bool {
        true
    }

    open spec fn proved(
        &self,
        witnesses: Seq<&Witness>,
        edge_ids: Seq<usize>,
        out_claims: Seq<&Claim>,
        log: Seq<int>,
        proofs: Seq<SumcheckProof>,
        claims: Seq<Claim>,
        after: Seq<int>,
    ) -> bool {
        nothing_proved(log, proofs, claims, after)
    }

    fn prove(
        &self,
        witnesses: &[&Witness],
        edge_ids: &[usize],
        out_claims: &[&Claim],
        transcript: &mut Transcript,
    ) -> (r: (Vec<SumcheckProof>, Vec<Claim>)) {
        (Vec::new(), Vec::new())
    }

    open spec fn can_verify(
        &self,
        witnesses: Seq<&Witness>,
        claims: Seq<&Claim>,
        sumcheck_proofs: Seq<&SumcheckProof>,
    ) -> bool {
        true
    }

    open spec fn verified(
        &self,
        witnesses: Seq<&Witness>,
        claims: Seq<&Claim>,
        sumcheck_proofs: Seq<&SumcheckProof>,
        log: Seq<int>,
        r: bool,
        after: Seq<int>,
    ) -> bool {
        r && after == log
    }

    fn verify(
        &self,
        witnesses: &[&Witness],
        claims: &[&Claim],
        sumcheck_proofs: &[&SumcheckProof],
        transcript: &mut Transcript,
    ) -> (r: bool) {
        true
    }
}

/// Every entry divided by a constant in double precision and rounded to the nearest integer. The low
/// 32 bits of the rounded quotient are kept, with its sign.
#[derive(Clone, Copy, Debug)]
pub struct DivConst {
    pub c: usize,
}

/// The low 32 bits of an integer, with its sign.
pub open spec fn low_word(q: int) -> int {
    if q >= 0 {
        q % 0x1_0000_0000
    } else {
        -((-q) % 0x1_0000_0000)
    }
}

/// An entry divided by a constant.
pub open spec fn divided(x: int, c: int) -> int {
    low_word(double_divided(x, c))
}

/// An entry below `2^52` whose quotient takes at most 32 bits is divided exactly: the result is the
/// nearest integer.
pub proof fn lemma_divided(x: int, c: int)
    requires
        c > 0,
        -0x10_0000_0000_0000 < x < 0x10_0000_0000_0000,
        -0x1_0000_0000 < nearest(x, c) < 0x1_0000_0000,
    ensures
        divided(x, c) == nearest(x, c),
{
    lemma_double_divided(x, c);
}

impl BasicBlock for DivConst {
    open spec fn can_run(&self, inputs: Seq<&Witness>, advice: Seq<i128>) -> bool {
        &&& inputs.len() >= 1
        &&& inputs[0].filled()
        &&& self.c > 0
        &&& entries_below(inputs[0].values(), 0x1000_0000_0000_0000_0000_0000_0000_0000)
    }

    open spec fn ran(
        &self,
        inputs: Seq<&Witness>,
        advice: Seq<i128>,
        outputs: Seq<Witness>,
    ) -> bool {
        let x = inputs[0];
        &&& outputs.len() == 1
        &&& outputs[0]@ == dense_value(
            x.shape@,
            x.values().map_values(
                |v: int| divided(signed(v), self.c as int) % modulus(),
            ),
            x.data_type,
            x.sf,
            Role::Auxiliary,
        )
    }

    fn run(&self, inputs: &[&Witness], advice: &[i128]) -> (r: Vec<Witness>) {
        let x = inputs[0];
        let poly = x.data.as_ref().unwrap();
        let size = two_to(get_n(x.shape.as_slice()));
        let ghost goal = x.values().map_values(
            |v: int| divided(signed(v), self.c as int) % modulus(),
        );
        let mut y_data: Vec<Fr> = Vec::with_capacity(size);
        let mut i: usize = 0;
        while i < size
            invariant
                i <= size,
                self.can_run(inputs@, advice@),
                x == inputs@[0],
                *poly == x.data->0,
                size == pow2(poly.vars()),
                size == poly.values().len(),
                goal == x.values().map_values(
                    |v: int| divided(signed(v), self.c as int) % modulus(),
                ),
                y_data@.len() == i,
                forall|j: int| 0 <= j < i ==> (#[trigger] y_data@[j])@ == goal[j],
            decreases size - i,
        {
            let x_i = poly.index(i);
            assert(is_small(x.values()[i as int]));
            let q = double_div(f_to_int(x_i), self.c);
            let y_i: i128 = if q >= 0 {
                q % 0x1_0000_0000
            } else {
                -((-q) % 0x1_0000_0000)
            };
            y_data.push(Fr::from_i128(y_i));
            i += 1;
        }
        assert(vals(y_data@) =~= goal);
        let y = Witness::new(
            copy_words(x.shape.as_slice()),
            y_data,
            x.data_type,
            x.sf,
            Role::Auxiliary,
        );
        let mut r: Vec<Witness> = Vec::new();
        r.push(y);
        r
    }

    open spec fn can_prove(
        &self,
        witnesses: Seq<&Witness>,
        edge_ids: Seq<usize>,
        out_claims: Seq<&Claim>,
    ) -> bool {
        true
    }

    open spec fn proved(
        &self,
        witnesses: Seq<&Witness>,
        edge_ids: Seq<usize>,
        out_claims: Seq<&Claim>,
        log: Seq<int>,
        proofs: Seq<SumcheckProof>,
        claims: Seq<Claim>,
        after: Seq<int>,
    ) -> bool {
        nothing_proved(log, proofs, claims, after)
    }

    fn prove(
        &self,
        witnesses: &[&Witness],
        edge_ids: &[usize],
        out_claims: &[&Claim],
        transcript: &mut Transcript,
    ) -> (r: (Vec<SumcheckProof>, Vec<Claim>)) {
        (Vec::new(), Vec::new())
    }

    open spec fn can_verify(
        &self,
        witnesses: Seq<&Witness>,
        claims: Seq<&Claim>,
        sumcheck_proofs: Seq<&SumcheckProof>,
    ) -> bool {
        true
    }

    open spec fn verified(
        &self,
        witnesses: Seq<&Witness>,
        claims: Seq<&Claim>,
        sumcheck_proofs: Seq<&SumcheckProof>,
        log: Seq<int>,
        r: bool,
        after: Seq<int>,
    ) -> bool {
        r && after == log
    }

    fn verify(
        &self,
        witnesses: &[&Witness],
        claims: &[&Claim],
        sumcheck_proofs: &[&SumcheckProof],
        transcript: &mut Transcript,
    ) -> (r: bool) {
        true
    }
}

/// The reciprocal of every entry at the scale of the tensor: `2^(2 * sf) / x`, rounded; zero for
/// zero.
#[derive(Clone, Copy, Debug)]
pub struct Reciprocal;

/// `2^(2 * sf) / x` rounded to the nearest integer; zero for zero.
pub open spec fn reciprocal_of(x: int, sf: nat) -> int {
    if x == 0 {
        0
    } else if x > 0 {
        nearest(pow2(2 * sf) as int, x)
    } else {
        -nearest(pow2(2 * sf) as int, -x)
    }
}

/// The reciprocal passes the check that binds it to its input: for an input of at most 1024 units in
/// absolute value, the product of the two, scaled back, is one unit up to 512.
pub proof fn lemma_reciprocal_within(x: int, sf: nat)
    requires
        x != 0,
        -1024 * pow2(sf) <= x <= 1024 * pow2(sf),
    ensures
        -512 <= scaled_down(x * reciprocal_of(x, sf), pow2(sf) as int) - pow2(sf) <= 512,
{
    let unit = pow2(sf) as int;
    vstd::arithmetic::power2::lemma_pow2_pos(sf);
    vstd::arithmetic::power2::lemma_pow2_adds(sf, sf);
    let a = if x > 0 {
        x
    } else {
        -x
    };
    let r = nearest(pow2(2 * sf) as int, a);
    lemma_nearest(pow2(2 * sf) as int, a);
    let product = x * reciprocal_of(x, sf);
    assert(product == r * a) by (nonlinear_arith)
        requires
            product == x * r && a == x || product == x * (-r) && a == -x,
    ;
    let rest = product - unit * unit;
    lemma_scaled_down(product, unit);
    let z = scaled_down(product, unit);
    assert(-512 <= z - unit <= 512) by (nonlinear_arith)
        requires
            -1024 * unit <= 2 * rest <= 1024 * unit,
            product == unit * unit + rest,
            z * unit <= product + unit / 2,
            product + unit / 2 < z * unit + unit,
            unit > 0,
    ;
}

/// A rounded mean passes the check that binds it to its sum: where the sum is below `2^52` and the
/// mean takes at most 32 bits, its multiple differs from the sum by at most half of the divisor.
pub proof fn lemma_mean_within(sum: int, c: int)
    requires
        c > 0,
        -0x10_0000_0000_0000 < sum < 0x10_0000_0000_0000,
        -0x1_0000_0000 < nearest(sum, c) < 0x1_0000_0000,
    ensures
        -(c / 2) <= sum - divided(sum, c) * c <= c / 2,
{
    lemma_divided(sum, c);
    lemma_nearest(sum, c);
}

impl BasicBlock for Reciprocal {
    open spec fn can_run(&self, inputs: Seq<&Witness>, advice: Seq<i128>) -> bool {
        &&& inputs.len() >= 1
        &&& inputs[0].filled()
        &&& inputs[0].sf <= 60
        &&& entries_below(inputs[0].values(), 0x1000_0000_0000_0000_0000_0000_0000_0000)
    }

    open spec fn ran(
        &self,
        inputs: Seq<&Witness>,
        advice: Seq<i128>,
        outputs: Seq<Witness>,
    ) -> bool {
        let x = inputs[0];
        &&& outputs.len() == 1
        &&& outputs[0]@ == dense_value(
            x.shape@,
            x.values().map_values(
                |v: int| reciprocal_of(signed(v), x.sf as nat) % modulus(),
            ),
            x.data_type,
            x.sf,
            Role::Auxiliary,
        )
    }

    fn run(&self, inputs: &[&Witness], advice: &[i128]) -> (r: Vec<Witness>) {
        let x = inputs[0];
        let poly = x.data.as_ref().unwrap();
        let size = two_to(get_n(x.shape.as_slice()));
        let one = power_of_two(x.sf) as i128;
        let ghost sf = x.sf as nat;
        proof {
            vstd::arithmetic::power2::lemma_pow2_adds(sf, sf);
            vstd::arithmetic::power2::lemma2_to64_rest();
            crate::math::lemma_pow2_mono(sf, 60);
            let k = one as int;
            assert(0 < k * k <= 0x1000_0000_0000_0000 * 0x1000_0000_0000_0000) by (nonlinear_arith)
                requires
                    0 < k <= 0x1000_0000_0000_0000,
            ;
        }
        let unit = one * one;
        let ghost goal = x.values().map_values(
            |v: int| reciprocal_of(signed(v), sf) % modulus(),
        );
        let mut y_data: Vec<Fr> = Vec::with_capacity(size);
        let mut i: usize = 0;
        while i < size
            invariant
                i <= size,
                self.can_run(inputs@, advice@),
                x == inputs@[0],
                sf == x.sf,
                *poly == x.data->0,
                size == pow2(poly.vars()),
                size == poly.values().len(),
                unit == pow2(2 * sf),
                0 < unit <= 0x100_0000_0000_0000_0000_0000_0000_0000,
                goal == x.values().map_values(
                    |v: int| reciprocal_of(signed(v), sf) % modulus(),
                ),
                y_data@.len() == i,
                forall|j: int| 0 <= j < i ==> (#[trigger] y_data@[j])@ == goal[j],
            decreases size - i,
        {
            let x_i = poly.index(i);
            assert(is_small(x.values()[i as int]));
            let v = f_to_int(x_i);
            let q: i128 = if v == 0 {
                0
            } else if v > 0 {
                round_div(unit, v)
            } else {
                let m = round_div(unit, -v);
                proof {
                    let (a, c) = (unit as int, -v as int);
                    assert((2 * a + c) / (2 * c) >= 0) by (nonlinear_arith)
                        requires
                            a > 0,
                            c > 0,
                    ;
                }
                -m
            };
            y_data.push(Fr::from_i128(q));
            i += 1;
        }
        assert(vals(y_data@) =~= goal);
        let y = Witness::new(
            copy_words(x.shape.as_slice()),
            y_data,
            x.data_type,
            x.sf,
            Role::Auxiliary,
        );
        let mut r: Vec<Witness> = Vec::new();
        r.push(y);
        r
    }

    open spec fn can_prove(
        &self,
        witnesses: Seq<&Witness>,
        edge_ids: Seq<usize>,
        out_claims: Seq<&Claim>,
    ) -> bool {
        true
    }

    open spec fn proved(
        &self,
        witnesses: Seq<&Witness>,
        edge_ids: Seq<usize>,
        out_claims: Seq<&Claim>,
        log: Seq<int>,
        proofs: Seq<SumcheckProof>,
        claims: Seq<Claim>,
        after: Seq<int>,
    ) -> bool {
        nothing_proved(log, proofs, claims, after)
    }

    fn prove(
        &self,
        witnesses: &[&Witness],
        edge_ids: &[usize],
        out_claims: &[&Claim],
        transcript: &mut Transcript,
    ) -> (r: (Vec<SumcheckProof>, Vec<Claim>)) {
        (Vec::new(), Vec::new())
    }

    open spec fn can_verify(
        &self,
        witnesses: Seq<&Witness>,
        claims: Seq<&Claim>,
        sumcheck_proofs: Seq<&SumcheckProof>,
    ) -> bool {
        true
    }

    open spec fn verified(
        &self,
        witnesses: Seq<&Witness>,
        claims: Seq<&Claim>,
        sumcheck_proofs: Seq<&SumcheckProof>,
        log: Seq<int>,
        r: bool,
        after: Seq<int>,
    ) -> bool {
        r && after == log
    }

    fn verify(
        &self,
        witnesses: &[&Witness],
        claims: &[&Claim],
        sumcheck_proofs: &[&SumcheckProof],
        transcript: &mut Transcript,
    ) -> (r: bool) {
        true
    }
}

/// The shift that makes the exponentials along the last dimension add up to one: the negated
/// logarithm of the sum of the exponentials, one for each group and written to all of its entries.
///
/// The advice holds, for each group, the rounded logarithm of the sum of the exponentials of the
/// differences to the largest entry.
#[derive(Clone, Copy, Debug)]
pub struct SoftmaxConst {
    /// The length of the last dimension, not padded.
    pub dim: usize,
}

/// The largest of the first `count` entries of a group.
pub open spec fn largest(table: Seq<int>, group: int, step: int, count: nat) -> int
    decreases count,
{
    let v = signed(table[group + (count - 1) * step]);
    if count <= 1 {
        v
    } else {
        let before = largest(table, group, step, (count - 1) as nat);
        if v > before {
            v
        } else {
            before
        }
    }
}

/// The shift of a group.
pub open spec fn softmax_shift(
    table: Seq<int>,
    group: int,
    step: int,
    dim: nat,
    advice: Seq<i128>,
) -> int {
    -(largest(table, group, step, dim) + advice[group])
}

/// The shifts of all entries.
pub open spec fn shift_table(
    table: Seq<int>,
    step: int,
    dim: nat,
    advice: Seq<i128>,
) -> Seq<int> {
    Seq::new(
        table.len(),
        |p: int| softmax_shift(table, p % step, step, dim, advice) % modulus(),
    )
}

/// The largest of the first `dim` entries of a group.
pub fn group_largest(x: &Witness, group: usize, step: usize, dim: usize) -> (r: i128)
    requires
        x.filled(),
        1 <= dim,
        group < step,
        dim * step <= x.values().len(),
        entries_below(x.values(), 0x1000_0000_0000_0000_0000_0000_0000_0000),
    ensures
        r == largest(x.values(), group as int, step as int, dim as nat),
        -0x1000_0000_0000_0000_0000_0000_0000_0000 < r
            < 0x1000_0000_0000_0000_0000_0000_0000_0000,
{
    let poly = x.data.as_ref().unwrap();
    proof {
        vstd::bits::lemma_usize_pow2_no_overflow(poly.vars());
        assert(step <= dim * step) by (nonlinear_arith)
            requires
                dim >= 1,
        ;
        assert(is_small(x.values()[group as int]));
        let s = step as int;
        assert(0 * s == 0) by (nonlinear_arith);
    }
    let mut best = f_to_int(poly.index(group));
    let mut at = group;
    let mut d: usize = 1;
    while d < dim
        invariant
            1 <= d <= dim,
            x.filled(),
            *poly == x.data->0,
            group < step,
            dim * step <= x.values().len(),
            x.values().len() == pow2(poly.vars()),
            pow2(poly.vars()) <= usize::MAX,
            entries_below(x.values(), 0x1000_0000_0000_0000_0000_0000_0000_0000),
            at == group + (d - 1) * step,
            best == largest(x.values(), group as int, step as int, d as nat),
            -0x1000_0000_0000_0000_0000_0000_0000_0000 < best
                < 0x1000_0000_0000_0000_0000_0000_0000_0000,
        decreases dim - d,
    {
        proof {
            let (s, n, k) = (step as int, dim as int, d as int);
            assert(k * s + s <= n * s) by (nonlinear_arith)
                requires
                    k + 1 <= n,
                    s >= 0,
            ;
            assert((k - 1) * s + s == k * s) by (nonlinear_arith);
            assert(((k + 1) - 1) * s == k * s);
        }
        at = at + step;
        assert(is_small(x.values()[at as int]));
        let v = f_to_int(poly.index(at));
        if v > best {
            best = v;
        }
        d += 1;
    }
    best
}

impl BasicBlock for SoftmaxConst {
    open spec fn can_run(&self, inputs: Seq<&Witness>, advice: Seq<i128>) -> bool {
        let shape = inputs[0].shape@;
        &&& inputs.len() >= 1
        &&& inputs[0].filled()
        &&& shape.len() >= 1
        &&& 1 <= self.dim <= pow2(ceil_log(shape.last() as int))
        &&& advice.len() == pow2(num_vars(shape.drop_last()))
        &&& forall|i: int|
            0 <= i < advice.len() ==> -0x1000_0000_0000_0000_0000_0000_0000_0000
                < #[trigger] advice[i] < 0x1000_0000_0000_0000_0000_0000_0000_0000
        &&& entries_below(inputs[0].values(), 0x1000_0000_0000_0000_0000_0000_0000_0000)
    }

    open spec fn ran(
        &self,
        inputs: Seq<&Witness>,
        advice: Seq<i128>,
        outputs: Seq<Witness>,
    ) -> bool {
        let x = inputs[0];
        &&& outputs.len() == 1
        &&& outputs[0]@ == dense_value(
            x.shape@,
            shift_table(
                x.values(),
                pow2(num_vars(x.shape@.drop_last())) as int,
                self.dim as nat,
                advice,
            ),
            x.data_type,
            x.sf,
            Role::Auxiliary,
        )
    }

    fn run(&self, inputs: &[&Witness], advice: &[i128]) -> (r: Vec<Witness>) {
        let x = inputs[0];
        let n = get_n(x.shape.as_slice());
        let size = two_to(n);
        let step = advice.len();
        let ghost goal = shift_table(x.values(), step as int, self.dim as nat, advice@);
        proof {
            let before = num_vars(x.shape@.drop_last());
            let l = ceil_log(x.shape@.last() as int);
            assert(num_vars(x.shape@) == before + l);
            vstd::arithmetic::power2::lemma_pow2_adds(before, l);
            vstd::arithmetic::power2::lemma_pow2_pos(before);
            assert(step == pow2(before));
            let (a, b, c) = (self.dim as int, pow2(l) as int, step as int);
            assert(a * c <= c * b) by (nonlinear_arith)
                requires
                    a <= b,
                    c >= 0,
            ;
        }
        let mut shifts: Vec<Fr> = Vec::with_capacity(step);
        let mut g: usize = 0;
        while g < step
            invariant
                g <= step,
                self.can_run(inputs@, advice@),
                x == inputs@[0],
                step == advice@.len(),
                step > 0,
                self.dim * step <= x.values().len(),
                shifts@.len() == g,
                forall|h: int|
                    0 <= h < g ==> (#[trigger] shifts@[h])@ == softmax_shift(
                        x.values(),
                        h,
                        step as int,
                        self.dim as nat,
                        advice@,
                    ) % modulus(),
            decreases step - g,
        {
            let best = group_largest(x, g, step, self.dim);
            assert(-0x1000_0000_0000_0000_0000_0000_0000_0000 < advice@[g as int]
                < 0x1000_0000_0000_0000_0000_0000_0000_0000);
            let shift = -(best + advice[g]);
            shifts.push(Fr::from_i128(shift));
            g += 1;
        }
        let mut y_data: Vec<Fr> = Vec::with_capacity(size);
        let mut p: usize = 0;
        while p < size
            invariant
                p <= size,
                size == x.values().len(),
                step > 0,
                shifts@.len() == step,
                goal == shift_table(x.values(), step as int, self.dim as nat, advice@),
                forall|h: int|
                    0 <= h < step ==> (#[trigger] shifts@[h])@ == softmax_shift(
                        x.values(),
                        h,
                        step as int,
                        self.dim as nat,
                        advice@,
                    ) % modulus(),
                y_data@.len() == p,
                forall|q: int| 0 <= q < p ==> (#[trigger] y_data@[q])@ == goal[q],
            decreases size - p,
        {
            assert(shifts@[p as int % step as int]@ == goal[p as int]);
            y_data.push(shifts[p % step]);
            p += 1;
        }
        assert(vals(y_data@) =~= goal);
        let y = Witness::new(
            copy_words(x.shape.as_slice()),
            y_data,
            x.data_type,
            x.sf,
            Role::Auxiliary,
        );
        let mut r: Vec<Witness> = Vec::new();
        r.push(y);
        r
    }

    open spec fn can_prove(
        &self,
        witnesses: Seq<&Witness>,
        edge_ids: Seq<usize>,
        out_claims: Seq<&Claim>,
    ) -> bool {
        true
    }

    open spec fn proved(
        &self,
        witnesses: Seq<&Witness>,
        edge_ids: Seq<usize>,
        out_claims: Seq<&Claim>,
        log: Seq<int>,
        proofs: Seq<SumcheckProof>,
        claims: Seq<Claim>,
        after: Seq<int>,
    ) -> bool {
        nothing_proved(log, proofs, claims, after)
    }

    fn prove(
        &self,
        witnesses: &[&Witness],
        edge_ids: &[usize],
        out_claims: &[&Claim],
        transcript: &mut Transcript,
    ) -> (r: (Vec<SumcheckProof>, Vec<Claim>)) {
        (Vec::new(), Vec::new())
    }

    open spec fn can_verify(
        &self,
        witnesses: Seq<&Witness>,
        claims: Seq<&Claim>,
        sumcheck_proofs: Seq<&SumcheckProof>,
    ) -> bool {
        true
    }

    open spec fn verified(
        &self,
        witnesses: Seq<&Witness>,
        claims: Seq<&Claim>,
        sumcheck_proofs: Seq<&SumcheckProof>,
        log: Seq<int>,
        r: bool,
        after: Seq<int>,
    ) -> bool {
        r && after == log
    }

    fn verify(
        &self,
        witnesses: &[&Witness],
        claims: &[&Claim],
        sumcheck_proofs: &[&SumcheckProof],
        transcript: &mut Transcript,
    ) -> (r: bool) {
        true
    }
}

/// The shift that takes every entry to the logarithm of its sigmoid. The advice holds one rounded
/// value for each entry.
#[derive(Clone, Copy, Debug)]
pub struct SigmoidConst;

impl BasicBlock for SigmoidConst {
    open spec fn can_run(&self, inputs: Seq<&Witness>, advice: Seq<i128>) -> bool {
        &&& inputs.len() >= 1
        &&& num_vars(inputs[0].shape@) < usize::BITS
        &&& advice.len() == pow2(num_vars(inputs[0].shape@))
    }

    open spec fn ran(
        &self,
        inputs: Seq<&Witness>,
        advice: Seq<i128>,
        outputs: Seq<Witness>,
    ) -> bool {
        &&& outputs.len() == 1
        &&& outputs[0]@ == dense_value(
            inputs[0].shape@,
            number_table(advice),
            inputs[0].data_type,
            inputs[0].sf,
            Role::Auxiliary,
        )
    }

    fn run(&self, inputs: &[&Witness], advice: &[i128]) -> (r: Vec<Witness>) {
        let x = inputs[0];
        let data = numbers_to_field(advice);
        let y = Witness::new(
            copy_words(x.shape.as_slice()),
            data,
            x.data_type,
            x.sf,
            Role::Auxiliary,
        );
        let mut r: Vec<Witness> = Vec::new();
        r.push(y);
        r
    }

    open spec fn can_prove(
        &self,
        witnesses: Seq<&Witness>,
        edge_ids: Seq<usize>,
        out_claims: Seq<&Claim>,
    ) -> bool {
        true
    }

    open spec fn proved(
        &self,
        witnesses: Seq<&Witness>,
        edge_ids: Seq<usize>,
        out_claims: Seq<&Claim>,
        log: Seq<int>,
        proofs: Seq<SumcheckProof>,
        claims: Seq<Claim>,
        after: Seq<int>,
    ) -> bool {
        nothing_proved(log, proofs, claims, after)
    }

    fn prove(
        &self,
        witnesses: &[&Witness],
        edge_ids: &[usize],
        out_claims: &[&Claim],
        transcript: &mut Transcript,
    ) -> (r: (Vec<SumcheckProof>, Vec<Claim>)) {
        (Vec::new(), Vec::new())
    }

    open spec fn can_verify(
        &self,
        witnesses: Seq<&Witness>,
        claims: Seq<&Claim>,
        sumcheck_proofs: Seq<&SumcheckProof>,
    ) -> bool {
        true
    }

    open spec fn verified(
        &self,
        witnesses: Seq<&Witness>,
        claims: Seq<&Claim>,
        sumcheck_proofs: Seq<&SumcheckProof>,
        log: Seq<int>,
        r: bool,
        after: Seq<int>,
    ) -> bool {
        r && after == log
    }

    fn verify(
        &self,
        witnesses: &[&Witness],
        claims: &[&Claim],
        sumcheck_proofs: &[&SumcheckProof],
        transcript: &mut Transcript,
    ) -> (r: bool) {
        true
    }
}

} // verus!
