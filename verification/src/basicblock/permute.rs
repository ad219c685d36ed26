//! Moving entries of a tensor.
use crate::arith::{ceil_log, lemma_num_vars_take, num_vars};
use crate::basicblock::range::{padded_dims, padded_shape};
use crate::basicblock::reducer::lemma_two_tables;
use crate::basicblock::BasicBlock;
use crate::field::{lemma_modulus_bounds, modulus, vals, CryptoField, Fr};
use crate::math::{
    cong, lemma_cong_add, lemma_cong_mul, lemma_reduced, lemma_sum_add, lemma_sum_cong,
    lemma_sum_ext, lemma_sum_scale, lemma_sum_single, lemma_sum_swap, lemma_sum_zero, sum_to,
    two_to,
};
use crate::mle::{bits, eq_weight, lemma_mle_bits, mle};
use crate::poly::dense::{evaluate_lagrange_basis, DenseMLPoly};
use crate::sumcheck::linear::{tables_of, LinearSumcheckProver};
use crate::sumcheck::prover::{header, messages, SumcheckProof, SumcheckProver};
use crate::sumcheck::theory::{honest, partial_sum, rounds_challenges, rounds_log, value_at};
use crate::transcript::Transcript;
use crate::witness::{copy_words, dense_value, Claim, Poly, Role, Witness};
use vstd::arithmetic::power2::pow2;
use vstd::prelude::*;

verus! {

/// The product of the first `i` dimensions.
pub open spec fn stride(dims: Seq<usize>, i: int) -> int
    decreases i,
{
    if i <= 0 {
        1
    } else {
        stride(dims, i - 1) * dims[i - 1]
    }
}

/// The place of an entry in a tensor's table, the first dimension varying fastest.
pub open spec fn flat_index(dims: Seq<usize>, indices: Seq<usize>) -> int {
    sum_to(|i: int| indices[i] * stride(dims, i), indices.len() as int)
}

/// In a padded shape, the dimensions before the `i`-th take as many entries as they have index
/// bits.
pub proof fn lemma_padded_stride(shape: Seq<usize>, i: int)
    requires
        0 <= i <= shape.len(),
        num_vars(shape) < usize::BITS,
    ensures
        stride(padded_dims(shape), i) == pow2(num_vars(shape.take(i))),
    decreases i,
{
    crate::math::lemma_pow2_small();
    if i == 0 {
        assert(shape.take(0) =~= Seq::<usize>::empty());
    } else {
        lemma_padded_stride(shape, i - 1);
        lemma_num_vars_take(shape, i - 1);
        lemma_num_vars_take(shape, i);
        let l = ceil_log(shape[i - 1] as int);
        vstd::bits::lemma_usize_pow2_no_overflow(l);
        vstd::arithmetic::power2::lemma_pow2_adds(num_vars(shape.take(i - 1)), l);
    }
}

/// The dimensions padded to powers of two.
pub fn shape_pow(shape: &[usize]) -> (r: Vec<usize>)
    requires
        num_vars(shape@) < usize::BITS,
    ensures
        r@ == padded_dims(shape@),
{
    padded_shape(shape)
}

/// The place of an entry in a tensor's table.
pub fn shape_indices_to_eval_index(shape_pow: &[usize], indices: &[usize]) -> (r: usize)
    requires
        indices@.len() <= shape_pow@.len() + 1,
        forall|i: int| 0 <= i < indices@.len() ==> #[trigger] stride(shape_pow@, i) <= usize::MAX,
        flat_index(shape_pow@, indices@) <= usize::MAX,
    ensures
        r == flat_index(shape_pow@, indices@),
{
    let mut index: usize = 0;
    let mut step: usize = 1;
    let mut i: usize = 0;
    let ghost f = |i: int| indices@[i] * stride(shape_pow@, i);
    while i < indices.len()
        invariant
            i <= indices@.len(),
            indices@.len() <= shape_pow@.len() + 1,
            forall|i: int|
                0 <= i < indices@.len() ==> #[trigger] stride(shape_pow@, i) <= usize::MAX,
            f == (|i: int| indices@[i] * stride(shape_pow@, i)),
            sum_to(f, indices@.len() as int) <= usize::MAX,
            index == sum_to(f, i as int),
            i < indices@.len() ==> step == stride(shape_pow@, i as int),
        decreases indices.len() - i,
    {
        proof {
            lemma_partial_index(shape_pow@, indices@, i + 1);
            assert(f(i as int) >= 0) by (nonlinear_arith)
                requires
                    f(i as int) == indices@[i as int] * step,
            ;
        }
        index = index + indices[i] * step;
        if i + 1 < indices.len() {
            proof {
                assert(stride(shape_pow@, i + 1) <= usize::MAX);
            }
            step = step * shape_pow[i];
        }
        i += 1;
    }
    index
}

proof fn lemma_partial_index(dims: Seq<usize>, indices: Seq<usize>, k: int)
    requires
        0 <= k <= indices.len(),
    ensures
        sum_to(|i: int| indices[i] * stride(dims, i), k) <= flat_index(dims, indices),
    decreases indices.len() - k,
{
    let f = |i: int| indices[i] * stride(dims, i);
    if k < indices.len() {
        lemma_partial_index(dims, indices, k + 1);
        lemma_stride_positive(dims, k);
        let (a, b) = (indices[k] as int, stride(dims, k));
        assert(a * b >= 0) by (nonlinear_arith)
            requires
                a >= 0,
                b >= 0,
        ;
        assert(sum_to(f, k + 1) == sum_to(f, k) + f(k));
    }
}

proof fn lemma_stride_positive(dims: Seq<usize>, i: int)
    ensures
        stride(dims, i) >= 0,
    decreases i,
{
    if i > 0 {
        lemma_stride_positive(dims, i - 1);
        let (a, b) = (stride(dims, i - 1), dims[i - 1] as int);
        assert(a * b >= 0) by (nonlinear_arith)
            requires
                a >= 0,
                b >= 0,
        ;
    }
}

/// Moves entries of a tensor to places of another one.
#[derive(Debug)]
pub struct Permute {
    /// Pairs of the indices of an input entry and of the output entry that it is moved to.
    pub permutation: Vec<(Vec<usize>, Vec<usize>)>,
    pub output_shape: Vec<usize>,
}

/// The places that entry `k` of the list is moved from and to.
pub open spec fn move_of(
    permutation: Seq<(Vec<usize>, Vec<usize>)>,
    in_shape: Seq<usize>,
    out_shape: Seq<usize>,
    k: int,
) -> (int, int) {
    (
        flat_index(padded_dims(in_shape), permutation[k].0@),
        flat_index(padded_dims(out_shape), permutation[k].1@),
    )
}

/// The places that the entries are moved from and to.
pub open spec fn moves(
    permutation: Seq<(Vec<usize>, Vec<usize>)>,
    in_shape: Seq<usize>,
    out_shape: Seq<usize>,
) -> Seq<(int, int)> {
    Seq::new(permutation.len(), |k: int| move_of(permutation, in_shape, out_shape, k))
}

/// The output after the first `count` moves; a later move to a place replaces an earlier one.
pub open spec fn moved(table: Seq<int>, list: Seq<(int, int)>, size: nat, count: nat) -> Seq<int>
    decreases count,
{
    if count == 0 {
        Seq::new(size, |p: int| 0)
    } else {
        moved(table, list, size, (count - 1) as nat).update(
            list[count - 1].1,
            table[list[count - 1].0],
        )
    }
}

/// The weight that the moves give the input entry `p`, at a point of the output.
pub open spec fn move_weight(list: Seq<(int, int)>, point: Seq<int>, p: int, count: int) -> int {
    sum_to(|k: int| weight_if(list[k], point, p), count)
}

/// The weight of the output place of a move from `p`.
pub open spec fn weight_if(step: (int, int), point: Seq<int>, p: int) -> int {
    if step.0 == p {
        eq_weight(point, step.1)
    } else {
        0
    }
}

/// The table of the weights of the input entries.
pub open spec fn weight_table(list: Seq<(int, int)>, point: Seq<int>, n: nat) -> Seq<int> {
    Seq::new(pow2(n), |p: int| move_weight(list, point, p, list.len() as int) % modulus())
}

impl Permute {
    /// The indices are those of entries of the input and of the output.
    pub open spec fn valid_for(&self, in_shape: Seq<usize>) -> bool {
        &&& num_vars(in_shape) < usize::BITS
        &&& num_vars(self.output_shape@) < usize::BITS
        &&& forall|k: int|
            0 <= k < self.permutation@.len() ==> ({
                let step = #[trigger] move_of(
                    self.permutation@,
                    in_shape,
                    self.output_shape@,
                    k,
                );
                &&& self.permutation@[k].0@.len() == in_shape.len()
                &&& self.permutation@[k].1@.len() == self.output_shape@.len()
                &&& 0 <= step.0 < pow2(num_vars(in_shape))
                &&& 0 <= step.1 < pow2(num_vars(self.output_shape@))
            })
    }

    /// The places of a move.
    fn places_of(&self, in_pow: &Vec<usize>, out_pow: &Vec<usize>, k: usize, in_shape: &[usize])
        -> (r: (usize, usize))
        requires
            self.valid_for(in_shape@),
            in_pow@ == padded_dims(in_shape@),
            out_pow@ == padded_dims(self.output_shape@),
            k < self.permutation@.len(),
        ensures
            (r.0 as int, r.1 as int) == move_of(
                self.permutation@,
                in_shape@,
                self.output_shape@,
                k as int,
            ),
    {
        let (from, to) = &self.permutation[k];
        proof {
            let step = move_of(self.permutation@, in_shape@, self.output_shape@, k as int);
            assert(0 <= step.0 < pow2(num_vars(in_shape@)));
            vstd::bits::lemma_usize_pow2_no_overflow(num_vars(in_shape@));
            vstd::bits::lemma_usize_pow2_no_overflow(num_vars(self.output_shape@));
            assert forall|i: int| 0 <= i < from@.len() implies #[trigger] stride(in_pow@, i)
                <= usize::MAX by {
                lemma_padded_stride(in_shape@, i);
                lemma_num_vars_take(in_shape@, i);
                crate::math::lemma_pow2_mono(num_vars(in_shape@.take(i)), num_vars(in_shape@));
            }
            assert forall|i: int| 0 <= i < to@.len() implies #[trigger] stride(out_pow@, i)
                <= usize::MAX by {
                lemma_padded_stride(self.output_shape@, i);
                lemma_num_vars_take(self.output_shape@, i);
                crate::math::lemma_pow2_mono(
                    num_vars(self.output_shape@.take(i)),
                    num_vars(self.output_shape@),
                );
            }
        }
        (
            shape_indices_to_eval_index(in_pow.as_slice(), from.as_slice()),
            shape_indices_to_eval_index(out_pow.as_slice(), to.as_slice()),
        )
    }

    /// The polynomial of the weights of the input entries.
    fn weights(&self, in_shape: &[usize], basis: &Vec<Fr>, point: Ghost<Seq<int>>) -> (r: Vec<Fr>)
        requires
            self.valid_for(in_shape@),
            basis@.len() == pow2(num_vars(self.output_shape@)),
            forall|i: int|
                0 <= i < basis@.len() ==> (#[trigger] basis@[i])@ == eq_weight(point@, i)
                    % modulus(),
        ensures
            vals(r@) =~= weight_table(
                moves(self.permutation@, in_shape@, self.output_shape@),
                point@,
                num_vars(in_shape@),
            ),
    {
        let in_pow = shape_pow(in_shape);
        let out_pow = shape_pow(self.output_shape.as_slice());
        let size = two_to(crate::arith::get_n(in_shape));
        let mut data = Fr::repeat(Fr::zero(), size);
        let ghost list = moves(self.permutation@, in_shape@, self.output_shape@);
        let mut k: usize = 0;
        proof {
            lemma_modulus_bounds();
            vstd::arithmetic::div_mod::lemma_small_mod(0, modulus() as nat);
        }
        while k < self.permutation.len()
            invariant
                k <= self.permutation@.len(),
                self.valid_for(in_shape@),
                in_pow@ == padded_dims(in_shape@),
                out_pow@ == padded_dims(self.output_shape@),
                list == moves(self.permutation@, in_shape@, self.output_shape@),
                size == pow2(num_vars(in_shape@)),
                data@.len() == size,
                basis@.len() == pow2(num_vars(self.output_shape@)),
                forall|i: int|
                    0 <= i < basis@.len() ==> (#[trigger] basis@[i])@ == eq_weight(point@, i)
                        % modulus(),
                forall|p: int|
                    0 <= p < size ==> (#[trigger] data@[p])@ == move_weight(
                        list,
                        point@,
                        p,
                        k as int,
                    ) % modulus(),
            decreases self.permutation.len() - k,
        {
            let (input_index, output_index) = self.places_of(&in_pow, &out_pow, k, in_shape);
            proof {
                let step = move_of(self.permutation@, in_shape@, self.output_shape@, k as int);
                assert(0 <= step.0 < size && 0 <= step.1 < basis@.len());
                assert(list[k as int] == step);
            }
            let ghost before = data@;
            let sum = data[input_index].add(basis[output_index]);
            data.set(input_index, sum);
            proof {
                assert forall|p: int| 0 <= p < size implies (#[trigger] data@[p])@ == move_weight(
                    list,
                    point@,
                    p,
                    k + 1,
                ) % modulus() by {
                    let f = |k: int| weight_if(list[k], point@, p);
                    assert(sum_to(f, k + 1) == sum_to(f, k as int) + f(k as int));
                    assert(before[p]@ == move_weight(list, point@, p, k as int) % modulus());
                    if p == input_index {
                        lemma_reduced(sum_to(f, k as int));
                        lemma_reduced(f(k as int));
                        lemma_cong_add(
                            before[p]@,
                            sum_to(f, k as int),
                            basis@[output_index as int]@,
                            f(k as int),
                        );
                    }
                }
            }
            k += 1;
        }
        data
    }
}

impl BasicBlock for Permute {
    open spec fn can_run(&self, inputs: Seq<&Witness>, advice: Seq<i128>) -> bool {
        inputs.len() >= 1 && inputs[0].filled() && self.valid_for(inputs[0].shape@)
    }

    open spec fn ran(
        &self,
        inputs: Seq<&Witness>,
        advice: Seq<i128>,
        outputs: Seq<Witness>,
    ) -> bool {
        let x = inputs[0];
        &&& outputs.len() == 1
        &&& outputs[0]@ == dense_value(
            self.output_shape@,
            moved(
                x.values(),
                moves(self.permutation@, x.shape@, self.output_shape@),
                pow2(num_vars(self.output_shape@)),
                self.permutation@.len(),
            ),
            x.data_type,
            x.sf,
            Role::Output,
        )
    }

    fn run(&self, inputs: &[&Witness], advice: &[i128]) -> (r: Vec<Witness>) {
        let x = inputs[0];
        let poly = x.data.as_ref().unwrap();
        let in_pow = shape_pow(x.shape.as_slice());
        let out_pow = shape_pow(self.output_shape.as_slice());
        let size = two_to(crate::arith::get_n(self.output_shape.as_slice()));
        let mut data = Fr::repeat(Fr::zero(), size);
        let ghost list = moves(self.permutation@, x.shape@, self.output_shape@);
        let mut k: usize = 0;
        assert(vals(data@) =~= moved(x.values(), list, size as nat, 0));
        while k < self.permutation.len()
            invariant
                k <= self.permutation@.len(),
                self.can_run(inputs@, advice@),
                x == inputs@[0],
                *poly == x.data->0,
                in_pow@ == padded_dims(x.shape@),
                out_pow@ == padded_dims(self.output_shape@),
                list == moves(self.permutation@, x.shape@, self.output_shape@),
                size == pow2(num_vars(self.output_shape@)),
                data@.len() == size,
                vals(data@) == moved(x.values(), list, size as nat, k as nat),
            decreases self.permutation.len() - k,
        {
            let (input_index, output_index) = self.places_of(
                &in_pow,
                &out_pow,
                k,
                x.shape.as_slice(),
            );
            proof {
                let step = move_of(self.permutation@, x.shape@, self.output_shape@, k as int);
                assert(0 <= step.0 < pow2(num_vars(x.shape@)) && 0 <= step.1 < size);
                assert(list[k as int] == step);
            }
            let value = poly.index(input_index);
            let ghost before = data@;
            data.set(output_index, value);
            assert(vals(data@) =~= vals(before).update(output_index as int, value@));
            k += 1;
        }
        let y = Witness::new(
            copy_words(self.output_shape.as_slice()),
            data,
            x.data_type,
            x.sf,
            Role::Output,
        );
        let mut r: Vec<Witness> = Vec::new();
        r.push(y);
        r
    }

    open spec fn can_prove(
        &self,
        witnesses: Seq<&Witness>,
        edge_ids: Seq<usize>,
        out_claims: Seq<&Claim>,
    ) -> bool {
        &&& witnesses.len() >= 1
        &&& edge_ids.len() >= 1
        &&& out_claims.len() >= 1
        &&& witnesses[0].filled()
        &&& witnesses[0].data matches Some(Poly::Dense(_))
        &&& self.valid_for(witnesses[0].shape@)
        &&& out_claims[0].point@.len() == num_vars(self.output_shape@)
    }

    open spec fn proved(
        &self,
        witnesses: Seq<&Witness>,
        edge_ids: Seq<usize>,
        out_claims: Seq<&Claim>,
        log: Seq<int>,
        proofs: Seq<SumcheckProof>,
        claims: Seq<Claim>,
        after: Seq<int>,
    ) -> bool {
        let x = witnesses[0];
        let n = num_vars(x.shape@);
        let list = moves(self.permutation@, x.shape@, self.output_shape@);
        let terms = permute_terms(x.values(), list, vals(out_claims[0].point@), n);
        let start = header(log, n as int, 2);
        let msgs = messages(proofs[0].round_messages@);
        let challenges = rounds_challenges(start, msgs, n as int);
        &&& proofs.len() == 1
        &&& msgs.len() == n
        &&& honest(terms, challenges, msgs, 2)
        &&& proofs[0].final_eval@ == value_at(terms, challenges) % modulus()
        &&& claims.len() == 1
        &&& claims[0].edge_id == edge_ids[0]
        &&& claims[0].sparse_id == 0
        &&& vals(claims[0].point@) == challenges
        &&& claims[0].eval@ == mle(x.values(), challenges) % modulus()
        &&& after == rounds_log(start, msgs, n as int)
    }

    fn prove(
        &self,
        witnesses: &[&Witness],
        edge_ids: &[usize],
        out_claims: &[&Claim],
        transcript: &mut Transcript,
    ) -> (r: (Vec<SumcheckProof>, Vec<Claim>)) {
        let x = witnesses[0];
        let poly = x.data.as_ref().unwrap();
        let ghost point = vals(out_claims@[0].point@);
        let basis = evaluate_lagrange_basis(out_claims[0].point.as_slice());
        let weights = self.weights(x.shape.as_slice(), &basis, Ghost(point));
        let n = poly.n();
        let mut polys: Vec<DenseMLPoly> = Vec::new();
        if let Poly::Dense(dense) = poly {
            polys.push(dense.clone());
        }
        let permute_poly = DenseMLPoly::new(n, weights);
        polys.push(permute_poly);
        proof {
            let list = moves(self.permutation@, x.shape@, self.output_shape@);
            let tables = seq![x.values(), weight_table(list, point, n as nat)];
            assert(permute_poly.table().len() == permute_poly.evaluations@.len());
            assert(tables_of(polys@)[0] =~= tables[0]);
            assert(tables_of(polys@)[1] =~= tables[1]);
            assert(tables_of(polys@) =~= tables);
        }
        let mut prover = LinearSumcheckProver::new(n, 2, transcript);
        let sumcheck_proof = prover.prove(&polys, transcript);
        let challenges = prover.challenges;
        let eval = poly.evaluate_at_point(challenges.as_slice());
        let mut claims: Vec<Claim> = Vec::new();
        claims.push(Claim { edge_id: edge_ids[0], sparse_id: 0, point: challenges, eval });
        let mut proofs: Vec<SumcheckProof> = Vec::new();
        proofs.push(sumcheck_proof);
        (proofs, claims)
    }

    open spec fn can_verify(
        &self,
        witnesses: Seq<&Witness>,
        claims: Seq<&Claim>,
        sumcheck_proofs: Seq<&SumcheckProof>,
    ) -> bool {
        true
    }

    open spec fn verified(
        &self,
        witnesses: Seq<&Witness>,
        claims: Seq<&Claim>,
        sumcheck_proofs: Seq<&SumcheckProof>,
        log: Seq<int>,
        r: bool,
        after: Seq<int>,
    ) -> bool {
        r && after == log
    }

    fn verify(
        &self,
        witnesses: &[&Witness],
        claims: &[&Claim],
        sumcheck_proofs: &[&SumcheckProof],
        transcript: &mut Transcript,
    ) -> (r: bool) {
        true
    }
}

/// The sum that the reduction is about: the input times the weights of its entries.
pub open spec fn permute_terms(
    table: Seq<int>,
    list: Seq<(int, int)>,
    point: Seq<int>,
    n: nat,
) -> Seq<(int, Seq<Seq<int>>)> {
    seq![(1int, seq![table, weight_table(list, point, n)])]
}

/// No two moves go to one place.
pub open spec fn distinct_targets(list: Seq<(int, int)>) -> bool {
    forall|j: int, k: int|
        0 <= j < k < list.len() ==> (#[trigger] list[j]).1 != (#[trigger] list[k]).1
}

/// The value of the output at a point, over the moves.
proof fn lemma_moved_value(
    table: Seq<int>,
    list: Seq<(int, int)>,
    m: nat,
    point: Seq<int>,
    count: nat,
)
    requires
        point.len() == m,
        count <= list.len(),
        distinct_targets(list),
        forall|k: int| 0 <= k < list.len() ==> 0 <= (#[trigger] list[k]).1 < pow2(m),
    ensures
        mle(moved(table, list, pow2(m), count), point) == sum_to(
            |k: int| table[list[k].0] * eq_weight(point, list[k].1),
            count as int,
        ),
        moved(table, list, pow2(m), count).len() == pow2(m),
        forall|p: int|
            0 <= p < pow2(m) && (forall|k: int| 0 <= k < count ==> (#[trigger] list[k]).1 != p)
                ==> #[trigger] moved(table, list, pow2(m), count)[p] == 0,
    decreases count,
{
    let size = pow2(m) as int;
    let now = moved(table, list, pow2(m), count);
    let f = |k: int| table[list[k].0] * eq_weight(point, list[k].1);
    if count == 0 {
        let z = |i: int| now[i] * eq_weight(point, i);
        assert forall|i: int| 0 <= i < size implies #[trigger] z(i) == 0 by {
            let e = eq_weight(point, i);
            assert(0 * e == 0) by (nonlinear_arith);
        }
        lemma_sum_zero(z, size);
    } else {
        let k = count - 1;
        lemma_moved_value(table, list, m, point, k as nat);
        let before = moved(table, list, pow2(m), k as nat);
        let (from, to) = list[k];
        assert(0 <= list[k].1 < pow2(m));
        assert forall|j: int| 0 <= j < k implies (#[trigger] list[j]).1 != to by {
            assert(list[k].1 == to);
        }
        assert(before[to] == 0);
        let a = |i: int| before[i] * eq_weight(point, i);
        let z = |i: int| now[i] * eq_weight(point, i);
        let d = |i: int|
            if i == to {
                table[from] * eq_weight(point, to)
            } else {
                0
            };
        lemma_sum_add(a, d, size);
        let both = |i: int| a(i) + d(i);
        assert forall|i: int| 0 <= i < size implies #[trigger] z(i) == both(i) by {
            let e = eq_weight(point, i);
            assert(0 * e == 0) by (nonlinear_arith);
        }
        lemma_sum_ext(z, both, size);
        lemma_sum_single(d, to, size);
        assert(sum_to(f, count as int) == sum_to(f, k) + f(k));
    }
}

/// The sum over all boolean points is the output's value at the point: what the proof reduces is
/// the claim about the output.
pub proof fn lemma_permuted_sum(
    table: Seq<int>,
    list: Seq<(int, int)>,
    n: nat,
    m: nat,
    point: Seq<int>,
)
    requires
        point.len() == m,
        distinct_targets(list),
        forall|k: int|
            0 <= k < list.len() ==> 0 <= (#[trigger] list[k]).0 < pow2(n) && 0 <= list[k].1
                < pow2(m),
    ensures
        cong(
            partial_sum(permute_terms(table, list, point, n), Seq::<int>::empty(), n),
            mle(moved(table, list, pow2(m), list.len()), point),
        ),
{
    let weights = weight_table(list, point, n);
    let terms = permute_terms(table, list, point, n);
    let size = pow2(n) as int;
    let count = list.len() as int;
    let none = Seq::<int>::empty();
    lemma_moved_value(table, list, m, point, list.len());
    let f = |b: int| value_at(terms, none + bits(b, n));
    let term = |b: int, k: int| table[b] * weight_if(list[k], point, b);
    let rows = |b: int| sum_to(|k: int| term(b, k), count);
    assert forall|b: int| 0 <= b < size implies cong(#[trigger] f(b), rows(b)) by {
        assert(none + bits(b, n) =~= bits(b, n));
        lemma_two_tables(table, weights, bits(b, n));
        lemma_mle_bits(table, b, n);
        lemma_mle_bits(weights, b, n);
        let w = |k: int| weight_if(list[k], point, b);
        lemma_reduced(sum_to(w, count));
        lemma_cong_mul(table[b], table[b], weights[b], sum_to(w, count));
        lemma_sum_scale(table[b], w, count);
        let scaled = |k: int| table[b] * w(k);
        let row = |k: int| term(b, k);
        lemma_sum_ext(scaled, row, count);
    }
    lemma_sum_cong(f, rows, size);
    lemma_sum_swap(term, size, count);
    let cols = |k: int| sum_to(|b: int| term(b, k), size);
    let goal = |k: int| table[list[k].0] * eq_weight(point, list[k].1);
    assert forall|k: int| 0 <= k < count implies #[trigger] cols(k) == goal(k) by {
        let from = list[k].0;
        let col = |b: int| term(b, k);
        assert forall|b: int| 0 <= b < size && b != from implies #[trigger] col(b) == 0 by {
            let t = table[b];
            assert(t * 0 == 0) by (nonlinear_arith);
        }
        lemma_sum_single(col, from, size);
    }
    lemma_sum_ext(cols, goal, count);
}

} // verus!
