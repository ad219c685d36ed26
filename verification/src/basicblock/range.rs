//! The range check of non-negative values.
use crate::arith::{f_to_int, is_small, num_vars, signed};
use crate::basicblock::{entry_selection, nothing_proved, selection_witness, selects, BasicBlock};
use crate::math::two_to;
use crate::sumcheck::prover::SumcheckProof;
use crate::transcript::Transcript;
use crate::witness::{Claim, Witness};
use vstd::arithmetic::power2::pow2;
use vstd::prelude::*;

verus! {

/// The position of an integer in the table `0, 1, ..., size - 1`; the first one where it has none.
pub open spec fn table_position(x: int, size: int) -> int {
    if 0 <= x < size {
        x
    } else {
        0
    }
}

/// Selects for every entry its place in the table of the integers below `2^table_size_log`.
///
/// An entry that is not in the table selects its first place, and the proof will not check out.
#[derive(Clone, Copy, Debug)]
pub struct NonNegative {
    pub table_size_log: usize,
}

impl NonNegative {
    pub fn new(table_size_log: usize) -> (r: NonNegative)
        ensures
            r.table_size_log == table_size_log,
    {
        NonNegative { table_size_log }
    }
}

/// The dimensions padded to powers of two.
pub open spec fn padded_dims(shape: Seq<usize>) -> Seq<usize> {
    shape.map_values(|d: usize| pow2(crate::arith::ceil_log(d as int)) as usize)
}

/// The dimensions padded to powers of two.
pub fn padded_shape(shape: &[usize]) -> (r: Vec<usize>)
    requires
        num_vars(shape@) < usize::BITS,
    ensures
        r@ == padded_dims(shape@),
{
    let mut r: Vec<usize> = Vec::with_capacity(shape.len());
    let mut i: usize = 0;
    while i < shape.len()
        invariant
            i <= shape@.len(),
            num_vars(shape@) < usize::BITS,
            r@ == padded_dims(shape@).take(i as int),
        decreases shape.len() - i,
    {
        proof {
            crate::arith::lemma_num_vars_take(shape@, i as int);
            crate::arith::lemma_num_vars_take(shape@, i + 1);
        }
        r.push(two_to(crate::arith::log2_ceil(shape[i])));
        i += 1;
    }
    assert(padded_dims(shape@).take(i as int) =~= padded_dims(shape@));
    r
}

impl BasicBlock for NonNegative {
    open spec fn can_run(&self, inputs: Seq<&Witness>, advice: Seq<i128>) -> bool {
        &&& inputs.len() >= 1
        &&& inputs[0].filled()
        &&& self.table_size_log < usize::BITS
        &&& num_vars(inputs[0].shape@) + self.table_size_log <= usize::BITS
        &&& forall|p: int|
            0 <= p < inputs[0].values().len() ==> is_small(#[trigger] inputs[0].values()[p])
    }

    open spec fn ran(
        &self,
        inputs: Seq<&Witness>,
        advice: Seq<i128>,
        outputs: Seq<Witness>,
    ) -> bool {
        let x = inputs[0];
        let n = num_vars(x.shape@);
        let size = pow2(self.table_size_log as nat) as int;
        &&& outputs.len() == 1
        &&& selects(
            outputs[0],
            padded_dims(x.shape@),
            n,
            self.table_size_log as nat,
            entry_selection(n, |p: int| table_position(signed(x.values()[p]), size)),
            x.data_type,
        )
    }

    fn run(&self, inputs: &[&Witness], advice: &[i128]) -> (r: Vec<Witness>) {
        let x = inputs[0];
        let poly = x.data.as_ref().unwrap();
        let num_var = crate::arith::get_n(x.shape.as_slice());
        let n = two_to(num_var);
        let table_size = two_to(self.table_size_log);
        let ghost size = table_size as int;
        let ghost position = |p: int| table_position(signed(x.values()[p]), size);
        let ghost goal = entry_selection(num_var as nat, position);
        let mut selection: Vec<(usize, usize)> = Vec::with_capacity(n);
        let mut i: usize = 0;
        while i < n
            invariant
                i <= n,
                self.can_run(inputs@, advice@),
                x == inputs@[0],
                *poly == x.data->0,
                num_var == num_vars(x.shape@),
                n == pow2(num_var as nat),
                size == table_size,
                table_size > 0,
                size == pow2(self.table_size_log as nat),
                position == (|p: int| table_position(signed(x.values()[p]), size)),
                goal == entry_selection(num_var as nat, position),
                selection@ == goal.take(i as int),
                forall|j: int|
                    0 <= j < selection@.len() ==> (#[trigger] selection@[j]).0 < n
                        && selection@[j].1 < table_size,
            decreases n - i,
        {
            let x_i = poly.index(i);
            assert(is_small(x.values()[i as int]));
            let value = f_to_int(x_i);
            let table_index: usize = if value >= 0 && value < table_size as i128 {
                value as usize
            } else {
                0
            };
            proof {
                assert(position(i as int) == table_index);
                assert(goal[i as int] == (i, table_index));
            }
            selection.push((i, table_index));
            i += 1;
        }
        assert(goal.take(n as int) =~= goal);
        let aux = selection_witness(
            padded_shape(x.shape.as_slice()),
            num_var,
            self.table_size_log,
            selection,
            x.data_type,
        );
        let mut r: Vec<Witness> = Vec::new();
        r.push(aux);
        r
    }

    open spec fn can_prove(
        &self,
        witnesses: Seq<&Witness>,
        edge_ids: Seq<usize>,
        out_claims: Seq<&Claim>,
    ) -> bool {
        true
    }

    open spec fn proved(
        &self,
        witnesses: Seq<&Witness>,
        edge_ids: Seq<usize>,
        out_claims: Seq<&Claim>,
        log: Seq<int>,
        proofs: Seq<SumcheckProof>,
        claims: Seq<Claim>,
        after: Seq<int>,
    ) -> bool {
        nothing_proved(log, proofs, claims, after)
    }

    fn prove(
        &self,
        witnesses: &[&Witness],
        edge_ids: &[usize],
        out_claims: &[&Claim],
        transcript: &mut Transcript,
    ) -> (r: (Vec<SumcheckProof>, Vec<Claim>)) {
        (Vec::new(), Vec::new())
    }

    open spec fn can_verify(
        &self,
        witnesses: Seq<&Witness>,
        claims: Seq<&Claim>,
        sumcheck_proofs: Seq<&SumcheckProof>,
    ) -> bool {
        true
    }

    open spec fn verified(
        &self,
        witnesses: Seq<&Witness>,
        claims: Seq<&Claim>,
        sumcheck_proofs: Seq<&SumcheckProof>,
        log: Seq<int>,
        r: bool,
        after: Seq<int>,
    ) -> bool {
        r && after == log
    }

    fn verify(
        &self,
        witnesses: &[&Witness],
        claims: &[&Claim],
        sumcheck_proofs: &[&SumcheckProof],
        transcript: &mut Transcript,
    ) -> (r: bool) {
        true
    }
}

} // verus!
