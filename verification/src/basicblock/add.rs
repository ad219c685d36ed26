//! Sums and differences of tensors, one of them broadcast to the shape of the other.
use crate::arith::{ceil_log, get_n, lemma_num_vars_take, log2_ceil, num_vars};
use crate::basicblock::BasicBlock;
use crate::field::{modulus, vals, Fr};
use crate::math::{
    cong, lemma_cong_add, lemma_cong_sub, lemma_reduced, lemma_sum_add, lemma_sum_ext,
    lemma_sum_scale, two_to,
};
use crate::mle::{bits, eq_weight, lemma_mle_cong, mle};
use crate::select::{
    lemma_bit, lemma_from_bits_push, lemma_mle_spread, lemma_projected_bound, pick, places_in,
    projected, spread,
};
use crate::shape::{
    bit_offsets, broadcast_shape, broadcasted, broadcasts_to, compatible, lemma_broadcasted,
    lemma_shared_places, matched, matched_axes, places, shared_places,
};
use crate::sumcheck::prover::SumcheckProof;
use crate::transcript::Transcript;
use crate::witness::{dense_value, Claim, DataType, Role, Witness};
use vstd::arithmetic::power2::pow2;
use vstd::prelude::*;

verus! {

/// Where the coordinates of each dimension begin in a point: `[0, 0, 2]` for the shape `[1, 4, 4]`.
pub fn dim_bit_offsets(c_shape: &[usize]) -> (r: Vec<usize>)
    requires
        num_vars(c_shape@) <= usize::MAX,
    ensures
        r@ == bit_offsets(c_shape@),
{
    let mut offsets: Vec<usize> = Vec::with_capacity(c_shape.len());
    let mut offset: usize = 0;
    let mut i: usize = 0;
    assert(c_shape@.take(0) =~= Seq::<usize>::empty());
    while i < c_shape.len()
        invariant
            i <= c_shape@.len(),
            num_vars(c_shape@) <= usize::MAX,
            offset == num_vars(c_shape@.take(i as int)),
            offsets@ == bit_offsets(c_shape@).take(i as int),
        decreases c_shape.len() - i,
    {
        offsets.push(offset);
        proof {
            lemma_num_vars_take(c_shape@, i as int);
            lemma_num_vars_take(c_shape@, i + 1);
        }
        offset = offset + log2_ceil(c_shape[i]);
        i += 1;
    }
    assert(bit_offsets(c_shape@).take(i as int) =~= bit_offsets(c_shape@));
    offsets
}

/// The coordinates of the given dimensions, one dimension after the other.
pub fn extract_input_point<T: Copy>(
    claim_point: &[T],
    matched: &[usize],
    c_shape: &[usize],
    offsets: &[usize],
) -> (r: Vec<T>)
    requires
        forall|k: int|
            0 <= k < matched@.len() ==> #[trigger] matched@[k] < c_shape@.len() && matched@[k]
                < offsets@.len() && offsets@[matched@[k] as int] + ceil_log(
                c_shape@[matched@[k] as int] as int,
            ) <= claim_point@.len(),
    ensures
        r@ == pick(claim_point@, places(matched@, c_shape@, offsets@)),
{
    let mut point: Vec<T> = Vec::new();
    let mut k: usize = 0;
    proof {
        assert(matched@.take(0) =~= Seq::<usize>::empty());
        assert(pick(claim_point@, places(matched@.take(0), c_shape@, offsets@)) =~= Seq::<
            T,
        >::empty());
    }
    while k < matched.len()
        invariant
            k <= matched@.len(),
            forall|k: int|
                0 <= k < matched@.len() ==> #[trigger] matched@[k] < c_shape@.len() && matched@[k]
                    < offsets@.len() && offsets@[matched@[k] as int] + ceil_log(
                    c_shape@[matched@[k] as int] as int,
                ) <= claim_point@.len(),
            point@ == pick(claim_point@, places(matched@.take(k as int), c_shape@, offsets@)),
        decreases matched.len() - k,
    {
        let m = matched[k];
        let start = offsets[m];
        let count = log2_ceil(c_shape[m]);
        let ghost before = point@;
        let mut j: usize = 0;
        assert(claim_point.len() == claim_point@.len());
        while j < count
            invariant
                j <= count,
                start + count <= claim_point.len(),
                claim_point.len() == claim_point@.len(),
                point@ == before + claim_point@.subrange(start as int, start + j),
            decreases count - j,
        {
            point.push(claim_point[start + j]);
            j += 1;
        }
        proof {
            let longer = matched@.take(k + 1);
            assert(longer.drop_last() =~= matched@.take(k as int));
            assert(longer.last() == m);
            assert(point@ =~= pick(claim_point@, places(longer, c_shape@, offsets@)));
        }
        k += 1;
    }
    assert(matched@.take(k as int) =~= matched@);
    point
}

/// The coordinates of `point` along the dimensions that a tensor of shape `a` shares with one of
/// shape `c`.
fn shared_point(point: &[Fr], a: &[usize], c: &[usize]) -> (r: Vec<Fr>)
    requires
        broadcasts_to(a@, c@),
        num_vars(c@) <= usize::MAX,
        num_vars(c@) <= point@.len(),
    ensures
        vals(r@) =~= pick(vals(point@), shared_places(a@, c@)),
        r@.len() == num_vars(a@),
{
    let dims = matched_axes(a, c).unwrap();
    let offsets = dim_bit_offsets(c);
    proof {
        assert(c.len() == c@.len());
        lemma_matched_in_range(a@, c@, c@.len());
        lemma_shared_places(a@, c@);
        assert forall|k: int| 0 <= k < dims@.len() implies #[trigger] dims@[k] < c@.len()
            && dims@[k] < offsets@.len() && offsets@[dims@[k] as int] + ceil_log(
            c@[dims@[k] as int] as int,
        ) <= point@.len() by {
            lemma_num_vars_take(c@, dims@[k] as int);
            lemma_num_vars_take(c@, dims@[k] + 1);
        }
    }
    let r = extract_input_point(point, dims.as_slice(), c, offsets.as_slice());
    proof {
        let at = shared_places(a@, c@);
        assert forall|k: int| 0 <= k < at.len() implies #[trigger] vals(r@)[k] == pick(
            vals(point@),
            at,
        )[k] by {
            assert(0 <= at[k] < num_vars(c@));
        }
    }
    r
}

proof fn lemma_matched_in_range(a: Seq<usize>, c: Seq<usize>, k: nat)
    requires
        k <= c.len(),
        c.len() <= usize::MAX,
    ensures
        forall|i: int|
            0 <= i < crate::shape::matched_below(a, c, k).len()
                ==> #[trigger] crate::shape::matched_below(a, c, k)[i] < k,
    decreases k,
{
    if k > 0 {
        lemma_matched_in_range(a, c, (k - 1) as nat);
        let before = crate::shape::matched_below(a, c, (k - 1) as nat);
        let now = crate::shape::matched_below(a, c, k);
        assert forall|i: int| 0 <= i < now.len() implies #[trigger] now[i] < k by {
            if i < before.len() {
                assert(now[i] == before[i]);
            }
        }
    }
}

/// The table of a tensor broadcast to a shape.
pub fn spread_values(w: &Witness, c_shape: &[usize]) -> (r: Vec<Fr>)
    requires
        w.filled(),
        broadcasts_to(w.shape@, c_shape@),
        num_vars(c_shape@) < usize::BITS,
    ensures
        vals(r@) =~= spread(w.values(), shared_places(w.shape@, c_shape@), num_vars(c_shape@)),
{
    let n = get_n(c_shape);
    let size = two_to(n);
    let mut identity: Vec<usize> = Vec::with_capacity(n);
    let mut i: usize = 0;
    while i < n
        invariant
            i <= n,
            identity@ == Seq::new(i as nat, |j: int| j as usize),
        decreases n - i,
    {
        identity.push(i);
        i += 1;
    }
    let ghost at = shared_places(w.shape@, c_shape@);
    let dims = matched_axes(w.shape.as_slice(), c_shape).unwrap();
    let offsets = dim_bit_offsets(c_shape);
    proof {
        assert(c_shape.len() == c_shape@.len());
        lemma_shared_places(w.shape@, c_shape@);
        lemma_matched_in_range(w.shape@, c_shape@, c_shape@.len());
        assert forall|k: int| 0 <= k < dims@.len() implies #[trigger] dims@[k] < c_shape@.len()
            && dims@[k] < offsets@.len() && offsets@[dims@[k] as int] + ceil_log(
            c_shape@[dims@[k] as int] as int,
        ) <= identity@.len() by {
            lemma_num_vars_take(c_shape@, dims@[k] as int);
            lemma_num_vars_take(c_shape@, dims@[k] + 1);
        }
    }
    let positions = extract_input_point(
        identity.as_slice(),
        dims.as_slice(),
        c_shape,
        offsets.as_slice(),
    );
    assert forall|k: int| 0 <= k < at.len() implies #[trigger] positions@[k] == at[k] by {
        assert(0 <= at[k] < num_vars(c_shape@));
    }
    let mut r: Vec<Fr> = Vec::with_capacity(size);
    let mut p: usize = 0;
    while p < size
        invariant
            p <= size,
            size == pow2(n as nat),
            n == num_vars(c_shape@),
            n < usize::BITS,
            w.filled(),
            at == shared_places(w.shape@, c_shape@),
            places_in(at, n as nat),
            at.len() == num_vars(w.shape@),
            positions@.len() == at.len(),
            forall|k: int| 0 <= k < at.len() ==> #[trigger] positions@[k] == at[k],
            r@.len() == p,
            forall|q: int|
                0 <= q < p ==> (#[trigger] r@[q])@ == w.values()[projected(q, n as nat, at)],
        decreases size - p,
    {
        let mut index: usize = 0;
        let mut k: usize = 0;
        proof {
            lemma_projected_bound(p as int, n as nat, at);
            crate::math::lemma_pow2_small();
            assert(pick(bits(p as int, n as nat), at.take(0)) =~= Seq::<int>::empty());
        }
        while k < positions.len()
            invariant
                k <= positions@.len(),
                p < pow2(n as nat),
                n < usize::BITS,
                places_in(at, n as nat),
                positions@.len() == at.len(),
                at.len() < usize::BITS,
                forall|k: int| 0 <= k < at.len() ==> #[trigger] positions@[k] == at[k],
                index == projected(p as int, n as nat, at.take(k as int)),
            decreases positions.len() - k,
        {
            assert(positions@[k as int] == at[k as int]);
            let place = positions[k];
            let bit = (p / two_to(place)) % 2;
            proof {
                let b = bits(p as int, n as nat);
                let fewer = pick(b, at.take(k as int));
                lemma_bit(p as int, n as nat, place as int);
                assert(pick(b, at.take(k + 1)) =~= fewer.push(b[place as int]));
                lemma_from_bits_push(fewer, b[place as int]);
                let next = at.take(k + 1);
                assert forall|i: int| 0 <= i < next.len() implies 0 <= #[trigger] next[i] < n by {
                    assert(next[i] == at[i]);
                }
                assert forall|i: int, j: int| 0 <= i < j < next.len() implies #[trigger] next[i]
                    < #[trigger] next[j] by {
                    assert(at[i] < at[j]);
                }
                lemma_projected_bound(p as int, n as nat, next);
                crate::math::lemma_pow2_mono(next.len(), (usize::BITS - 1) as nat);
                vstd::bits::lemma_usize_pow2_no_overflow((usize::BITS - 1) as nat);
                let w = pow2(k as nat) as int;
                let bi = bit as int;
                assert(bi * w == 0 || bi * w == w) by (nonlinear_arith)
                    requires
                        bi == 0 || bi == 1,
                ;
            }
            index = index + bit * two_to(k);
            k += 1;
        }
        assert(at.take(k as int) =~= at);
        r.push(w.data.as_ref().unwrap().index(index));
        p += 1;
    }
    r
}

/// Whether two points are equal.
pub fn same_points(a: &Vec<Fr>, b: &Vec<Fr>) -> (r: bool)
    ensures
        r == (vals(a@) == vals(b@)),
{
    if a.len() != b.len() {
        assert(vals(a@).len() != vals(b@).len());
        return false;
    }
    let mut i: usize = 0;
    while i < a.len()
        invariant
            i <= a@.len(),
            a@.len() == b@.len(),
            forall|j: int| 0 <= j < i ==> a@[j]@ == b@[j]@,
        decreases a.len() - i,
    {
        if !a[i].equals(&b[i]) {
            assert(vals(a@)[i as int] != vals(b@)[i as int]);
            return false;
        }
        i += 1;
    }
    assert(vals(a@) =~= vals(b@));
    true
}

/// The two inputs have one scale, compatible shapes and known values.
pub open spec fn can_combine(inputs: Seq<&Witness>) -> bool {
    &&& inputs.len() >= 2
    &&& inputs[0].filled()
    &&& inputs[1].filled()
    &&& inputs[0].sf == inputs[1].sf
    &&& compatible(inputs[0].shape@, inputs[1].shape@)
    &&& num_vars(broadcasted(inputs[0].shape@, inputs[1].shape@)) < usize::BITS
}

/// The table of a tensor broadcast to a shape.
pub open spec fn spread_to(w: &Witness, c_shape: Seq<usize>) -> Seq<int> {
    spread(w.values(), shared_places(w.shape@, c_shape), num_vars(c_shape))
}

/// Entrywise sums of two broadcast tensors.
pub open spec fn sum_table(a: &Witness, b: &Witness, c_shape: Seq<usize>) -> Seq<int> {
    Seq::new(
        pow2(num_vars(c_shape)),
        |p: int| (spread_to(a, c_shape)[p] + spread_to(b, c_shape)[p]) % modulus(),
    )
}

/// Entrywise differences of two broadcast tensors.
pub open spec fn difference_table(a: &Witness, b: &Witness, c_shape: Seq<usize>) -> Seq<int> {
    Seq::new(
        pow2(num_vars(c_shape)),
        |p: int| (spread_to(a, c_shape)[p] - spread_to(b, c_shape)[p]) % modulus(),
    )
}

/// The two inputs and the output of an application, with a claim about the output.
pub open spec fn is_application(
    witnesses: Seq<&Witness>,
    edge_ids: Seq<usize>,
    out_claims: Seq<&Claim>,
) -> bool {
    &&& witnesses.len() == 3
    &&& edge_ids.len() == 3
    &&& out_claims.len() == 1
    &&& witnesses[0].filled()
    &&& broadcasts_to(witnesses[0].shape@, witnesses[2].shape@)
    &&& broadcasts_to(witnesses[1].shape@, witnesses[2].shape@)
    &&& num_vars(witnesses[2].shape@) <= out_claims[0].point@.len()
}

/// A claim about each input: the first one's value as it is, the second one's such that the two
/// make up the claimed value.
pub open spec fn split_claims(
    witnesses: Seq<&Witness>,
    edge_ids: Seq<usize>,
    claim: &Claim,
    claims: Seq<Claim>,
    difference: bool,
) -> bool {
    let c_shape = witnesses[2].shape@;
    let point = vals(claim.point@);
    let a_eval = mle(
        witnesses[0].values(),
        pick(point, shared_places(witnesses[0].shape@, c_shape)),
    ) % modulus();
    &&& claims.len() == 2
    &&& claims[0].edge_id == edge_ids[0]
    &&& claims[1].edge_id == edge_ids[1]
    &&& claims[0].sparse_id == 0
    &&& claims[1].sparse_id == 0
    &&& vals(claims[0].point@) == pick(point, shared_places(witnesses[0].shape@, c_shape))
    &&& vals(claims[1].point@) == pick(point, shared_places(witnesses[1].shape@, c_shape))
    &&& claims[0].eval@ == a_eval
    &&& claims[1].eval@ == (if difference {
        (a_eval - claim.eval@) % modulus()
    } else {
        (claim.eval@ - a_eval) % modulus()
    })
}

/// The claims about the two inputs and the output, in this order, fit together.
pub open spec fn claims_fit(
    witnesses: Seq<&Witness>,
    claims: Seq<&Claim>,
    difference: bool,
) -> bool {
    let c_shape = witnesses[2].shape@;
    let point = vals(claims[2].point@);
    &&& claims[2].eval@ == (if difference {
        (claims[0].eval@ - claims[1].eval@) % modulus()
    } else {
        (claims[0].eval@ + claims[1].eval@) % modulus()
    })
    &&& vals(claims[0].point@) == pick(point, shared_places(witnesses[0].shape@, c_shape))
    &&& vals(claims[1].point@) == pick(point, shared_places(witnesses[1].shape@, c_shape))
}

/// Three claims about tensors that can be broadcast.
pub open spec fn can_check(witnesses: Seq<&Witness>, claims: Seq<&Claim>) -> bool {
    &&& witnesses.len() >= 3
    &&& claims.len() == 3
    &&& broadcasts_to(witnesses[0].shape@, witnesses[2].shape@)
    &&& broadcasts_to(witnesses[1].shape@, witnesses[2].shape@)
    &&& num_vars(witnesses[2].shape@) <= claims[2].point@.len()
}

/// Combines two tensors entry by entry.
fn combine(inputs: &[&Witness], difference: bool) -> (r: Vec<Witness>)
    requires
        can_combine(inputs@),
    ensures
        r@.len() == 1,
        ({
            let c_shape = broadcasted(inputs@[0].shape@, inputs@[1].shape@);
            r@[0]@ == dense_value(
                c_shape,
                if difference {
                    difference_table(inputs@[0], inputs@[1], c_shape)
                } else {
                    sum_table(inputs@[0], inputs@[1], c_shape)
                },
                DataType::Float,
                inputs@[0].sf,
                Role::Output,
            )
        }),
{
    let a = inputs[0];
    let b = inputs[1];
    proof {
        lemma_broadcasted(a.shape@, b.shape@);
    }
    let c_shape = broadcast_shape(a.shape.as_slice(), b.shape.as_slice()).unwrap();
    let a_values = spread_values(a, c_shape.as_slice());
    let b_values = spread_values(b, c_shape.as_slice());
    let ghost c = c_shape@;
    let ghost goal = if difference {
        difference_table(a, b, c)
    } else {
        sum_table(a, b, c)
    };
    let ghost (at, bt) = (spread_to(a, c), spread_to(b, c));
    let mut data: Vec<Fr> = Vec::with_capacity(a_values.len());
    let mut p: usize = 0;
    assert(vals(a_values@).len() == a_values@.len() && vals(b_values@).len() == b_values@.len());
    while p < a_values.len()
        invariant
            p <= a_values@.len(),
            a_values@.len() == b_values@.len(),
            a_values@.len() == goal.len(),
            vals(a_values@) == at,
            vals(b_values@) == bt,
            at.len() == goal.len(),
            goal.len() == pow2(num_vars(c)),
            at == spread_to(a, c),
            bt == spread_to(b, c),
            goal == (if difference {
                difference_table(a, b, c)
            } else {
                sum_table(a, b, c)
            }),
            data@.len() == p,
            forall|q: int| 0 <= q < p ==> (#[trigger] data@[q])@ == goal[q],
        decreases a_values.len() - p,
    {
        assert(at[p as int] == a_values@[p as int]@ && bt[p as int] == b_values@[p as int]@);
        if difference {
            data.push(a_values[p].sub(b_values[p]));
        } else {
            data.push(a_values[p].add(b_values[p]));
        }
        p += 1;
    }
    assert(vals(data@) =~= goal);
    let out = Witness::new(c_shape, data, DataType::Float, a.sf, Role::Output);
    let mut r: Vec<Witness> = Vec::new();
    r.push(out);
    r
}

/// Splits a claim about a combination of two tensors into claims about them.
fn split(
    witnesses: &[&Witness],
    edge_ids: &[usize],
    out_claims: &[&Claim],
    difference: bool,
) -> (r: Vec<Claim>)
    requires
        is_application(witnesses@, edge_ids@, out_claims@),
    ensures
        split_claims(witnesses@, edge_ids@, out_claims@[0], r@, difference),
{
    let claim = out_claims[0];
    let c_shape = witnesses[2].shape.as_slice();
    assert(claim.point.len() == claim.point@.len());
    let a_point = shared_point(claim.point.as_slice(), witnesses[0].shape.as_slice(), c_shape);
    let b_point = shared_point(claim.point.as_slice(), witnesses[1].shape.as_slice(), c_shape);
    let a_eval = witnesses[0].data.as_ref().unwrap().evaluate_at_point(a_point.as_slice());
    let b_eval = if difference {
        a_eval.sub(claim.eval)
    } else {
        claim.eval.sub(a_eval)
    };
    let mut claims: Vec<Claim> = Vec::new();
    claims.push(Claim { edge_id: edge_ids[0], sparse_id: 0, point: a_point, eval: a_eval });
    claims.push(Claim { edge_id: edge_ids[1], sparse_id: 0, point: b_point, eval: b_eval });
    claims
}

/// Checks that claims about two tensors and their combination fit together.
fn check(witnesses: &[&Witness], claims: &[&Claim], difference: bool) -> (r: bool)
    requires
        can_check(witnesses@, claims@),
    ensures
        r == claims_fit(witnesses@, claims@, difference),
{
    let c_shape = witnesses[2].shape.as_slice();
    let c_point = claims[2].point.as_slice();
    assert(claims@[2].point.len() == c_point@.len());
    let a_point = shared_point(c_point, witnesses[0].shape.as_slice(), c_shape);
    let b_point = shared_point(c_point, witnesses[1].shape.as_slice(), c_shape);
    let combined = if difference {
        claims[0].eval.sub(claims[1].eval)
    } else {
        claims[0].eval.add(claims[1].eval)
    };
    combined.equals(&claims[2].eval) && same_points(&claims[0].point, &a_point) && same_points(
        &claims[1].point,
        &b_point,
    )
}

/// The sum of two tensors.
#[derive(Clone, Copy, Debug)]
pub struct Add;

/// The difference of two tensors.
#[derive(Clone, Copy, Debug)]
pub struct Sub;

impl BasicBlock for Add {
    open spec fn can_run(&self, inputs: Seq<&Witness>, advice: Seq<i128>) -> bool {
        can_combine(inputs)
    }

    open spec fn ran(
        &self,
        inputs: Seq<&Witness>,
        advice: Seq<i128>,
        outputs: Seq<Witness>,
    ) -> bool {
        let c_shape = broadcasted(inputs[0].shape@, inputs[1].shape@);
        &&& outputs.len() == 1
        &&& outputs[0]@ == dense_value(
            c_shape,
            sum_table(inputs[0], inputs[1], c_shape),
            DataType::Float,
            inputs[0].sf,
            Role::Output,
        )
    }

    fn run(&self, inputs: &[&Witness], advice: &[i128]) -> (r: Vec<Witness>) {
        combine(inputs, false)
    }

    open spec fn can_prove(
        &self,
        witnesses: Seq<&Witness>,
        edge_ids: Seq<usize>,
        out_claims: Seq<&Claim>,
    ) -> bool {
        is_application(witnesses, edge_ids, out_claims)
    }

    open spec fn proved(
        &self,
        witnesses: Seq<&Witness>,
        edge_ids: Seq<usize>,
        out_claims: Seq<&Claim>,
        log: Seq<int>,
        proofs: Seq<SumcheckProof>,
        claims: Seq<Claim>,
        after: Seq<int>,
    ) -> bool {
        &&& proofs.len() == 0
        &&& split_claims(witnesses, edge_ids, out_claims[0], claims, false)
        &&& after == log
    }

    fn prove(
        &self,
        witnesses: &[&Witness],
        edge_ids: &[usize],
        out_claims: &[&Claim],
        transcript: &mut Transcript,
    ) -> (r: (Vec<SumcheckProof>, Vec<Claim>)) {
        (Vec::new(), split(witnesses, edge_ids, out_claims, false))
    }

    open spec fn can_verify(
        &self,
        witnesses: Seq<&Witness>,
        claims: Seq<&Claim>,
        sumcheck_proofs: Seq<&SumcheckProof>,
    ) -> bool {
        can_check(witnesses, claims)
    }

    open spec fn verified(
        &self,
        witnesses: Seq<&Witness>,
        claims: Seq<&Claim>,
        sumcheck_proofs: Seq<&SumcheckProof>,
        log: Seq<int>,
        r: bool,
        after: Seq<int>,
    ) -> bool {
        r == claims_fit(witnesses, claims, false) && after == log
    }

    fn verify(
        &self,
        witnesses: &[&Witness],
        claims: &[&Claim],
        sumcheck_proofs: &[&SumcheckProof],
        transcript: &mut Transcript,
    ) -> (r: bool) {
        check(witnesses, claims, false)
    }
}

impl BasicBlock for Sub {
    open spec fn can_run(&self, inputs: Seq<&Witness>, advice: Seq<i128>) -> bool {
        can_combine(inputs)
    }

    open spec fn ran(
        &self,
        inputs: Seq<&Witness>,
        advice: Seq<i128>,
        outputs: Seq<Witness>,
    ) -> bool {
        let c_shape = broadcasted(inputs[0].shape@, inputs[1].shape@);
        &&& outputs.len() == 1
        &&& outputs[0]@ == dense_value(
            c_shape,
            difference_table(inputs[0], inputs[1], c_shape),
            DataType::Float,
            inputs[0].sf,
            Role::Output,
        )
    }

    fn run(&self, inputs: &[&Witness], advice: &[i128]) -> (r: Vec<Witness>) {
        combine(inputs, true)
    }

    open spec fn can_prove(
        &self,
        witnesses: Seq<&Witness>,
        edge_ids: Seq<usize>,
        out_claims: Seq<&Claim>,
    ) -> bool {
        is_application(witnesses, edge_ids, out_claims)
    }

    open spec fn proved(
        &self,
        witnesses: Seq<&Witness>,
        edge_ids: Seq<usize>,
        out_claims: Seq<&Claim>,
        log: Seq<int>,
        proofs: Seq<SumcheckProof>,
        claims: Seq<Claim>,
        after: Seq<int>,
    ) -> bool {
        &&& proofs.len() == 0
        &&& split_claims(witnesses, edge_ids, out_claims[0], claims, true)
        &&& after == log
    }

    fn prove(
        &self,
        witnesses: &[&Witness],
        edge_ids: &[usize],
        out_claims: &[&Claim],
        transcript: &mut Transcript,
    ) -> (r: (Vec<SumcheckProof>, Vec<Claim>)) {
        (Vec::new(), split(witnesses, edge_ids, out_claims, true))
    }

    open spec fn can_verify(
        &self,
        witnesses: Seq<&Witness>,
        claims: Seq<&Claim>,
        sumcheck_proofs: Seq<&SumcheckProof>,
    ) -> bool {
        can_check(witnesses, claims)
    }

    open spec fn verified(
        &self,
        witnesses: Seq<&Witness>,
        claims: Seq<&Claim>,
        sumcheck_proofs: Seq<&SumcheckProof>,
        log: Seq<int>,
        r: bool,
        after: Seq<int>,
    ) -> bool {
        r == claims_fit(witnesses, claims, true) && after == log
    }

    fn verify(
        &self,
        witnesses: &[&Witness],
        claims: &[&Claim],
        sumcheck_proofs: &[&SumcheckProof],
        transcript: &mut Transcript,
    ) -> (r: bool) {
        check(witnesses, claims, true)
    }
}

/// What the operation proves it accepts: the claims that a claim about the output is split into fit
/// together with it.
pub proof fn lemma_split_claims_fit(
    witnesses: Seq<&Witness>,
    edge_ids: Seq<usize>,
    out: &Claim,
    a: &Claim,
    b: &Claim,
    difference: bool,
)
    requires
        witnesses.len() == 3,
        split_claims(witnesses, edge_ids, out, seq![*a, *b], difference),
        0 <= out.eval@ < modulus(),
    ensures
        claims_fit(witnesses, seq![a, b, out], difference),
{
    let split = seq![*a, *b];
    assert(split[0] == *a && split[1] == *b);
    let c = out.eval@;
    let x = a.eval@;
    if difference {
        lemma_reduced(x - c);
        lemma_cong_sub(x, x, b.eval@, x - c);
        assert(x - (x - c) == c);
    } else {
        lemma_reduced(c - x);
        lemma_cong_add(x, x, b.eval@, c - x);
        assert(x + (c - x) == c);
    }
    vstd::arithmetic::div_mod::lemma_small_mod(c as nat, modulus() as nat);
}

/// The value of a sum of tensors, one broadcast to the other, is the sum of their values at the
/// coordinates of their dimensions.
pub proof fn lemma_sum_value(a: &Witness, b: &Witness, c_shape: Seq<usize>, r: Seq<int>)
    requires
        a.filled(),
        b.filled(),
        broadcasts_to(a.shape@, c_shape),
        broadcasts_to(b.shape@, c_shape),
        num_vars(c_shape) < usize::BITS,
        c_shape.len() <= usize::MAX,
        r.len() == num_vars(c_shape),
    ensures
        cong(
            mle(sum_table(a, b, c_shape), r),
            mle(a.values(), pick(r, shared_places(a.shape@, c_shape))) + mle(
                b.values(),
                pick(r, shared_places(b.shape@, c_shape)),
            ),
        ),
        cong(
            mle(difference_table(a, b, c_shape), r),
            mle(a.values(), pick(r, shared_places(a.shape@, c_shape))) - mle(
                b.values(),
                pick(r, shared_places(b.shape@, c_shape)),
            ),
        ),
{
    let n = num_vars(c_shape);
    let m = pow2(n) as int;
    let (ta, tb) = (spread_to(a, c_shape), spread_to(b, c_shape));
    lemma_shared_places(a.shape@, c_shape);
    lemma_shared_places(b.shape@, c_shape);
    assert(a.values().len() == pow2(num_vars(a.shape@)));
    assert(b.values().len() == pow2(num_vars(b.shape@)));
    lemma_mle_spread(a.values(), shared_places(a.shape@, c_shape), n, r);
    lemma_mle_spread(b.values(), shared_places(b.shape@, c_shape), n, r);
    let f = |i: int| ta[i] * eq_weight(r, i);
    let g = |i: int| tb[i] * eq_weight(r, i);
    let ng = |i: int| (-1) * g(i);
    lemma_sum_scale(-1, g, m);
    lemma_sum_add(f, g, m);
    lemma_sum_add(f, ng, m);
    let s = Seq::new(pow2(n), |p: int| ta[p] + tb[p]);
    let d = Seq::new(pow2(n), |p: int| ta[p] - tb[p]);
    let fs = |i: int| s[i] * eq_weight(r, i);
    let fd = |i: int| d[i] * eq_weight(r, i);
    let both = |i: int| f(i) + g(i);
    let less = |i: int| f(i) + ng(i);
    assert forall|i: int| 0 <= i < m implies #[trigger] fs(i) == both(i) by {
        let (x, y, e) = (ta[i], tb[i], eq_weight(r, i));
        assert((x + y) * e == x * e + y * e) by (nonlinear_arith);
    }
    assert forall|i: int| 0 <= i < m implies #[trigger] fd(i) == less(i) by {
        let (x, y, e) = (ta[i], tb[i], eq_weight(r, i));
        assert((x - y) * e == x * e + (-1) * (y * e)) by (nonlinear_arith);
    }
    lemma_sum_ext(fs, both, m);
    lemma_sum_ext(fd, less, m);
    let st = sum_table(a, b, c_shape);
    let dt = difference_table(a, b, c_shape);
    assert forall|i: int| 0 <= i < m implies cong(#[trigger] st[i], s[i]) by {
        lemma_reduced(s[i]);
    }
    assert forall|i: int| 0 <= i < m implies cong(#[trigger] dt[i], d[i]) by {
        lemma_reduced(d[i]);
    }
    lemma_mle_cong(st, s, r);
    lemma_mle_cong(dt, d, r);
}

} // verus!
