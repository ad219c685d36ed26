//! Clamping from below, and the check that a tensor is zero.
use crate::arith::{f_to_int, is_small, lemma_few_dims, lemma_signed, signed};
use crate::basicblock::{
    can_claim_input, claim_input, input_claimed, nothing_proved, one_input, BasicBlock,
};
use crate::field::{modulus, vals, CryptoField, Fr};
use crate::sumcheck::prover::SumcheckProof;
use crate::transcript::Transcript;
use crate::witness::{copy_words, dense_value, Claim, DataType, Role, Witness};
use vstd::arithmetic::power2::pow2;
use vstd::prelude::*;

verus! {

/// `max(x, -c)`, entry by entry.
///
/// The constraints `y - x >= 0`, `y + c >= 0` and `(y - x)(y + c) = 0` pin the output down.
#[derive(Clone, Copy, Debug)]
pub struct ClampLower {
    pub c: u64,
}

/// The field element of `max(x, -c)` for the field element of `x`.
pub open spec fn clamped(x: int, c: int) -> int {
    if signed(x) < -c {
        (-c) % modulus()
    } else {
        x
    }
}

impl BasicBlock for ClampLower {
    open spec fn can_run(&self, inputs: Seq<&Witness>, advice: Seq<i128>) -> bool {
        &&& one_input(inputs)
        &&& forall|p: int|
            0 <= p < inputs[0].values().len() ==> is_small(#[trigger] inputs[0].values()[p])
    }

    open spec fn ran(
        &self,
        inputs: Seq<&Witness>,
        advice: Seq<i128>,
        outputs: Seq<Witness>,
    ) -> bool {
        let x = inputs[0];
        &&& outputs.len() == 1
        &&& outputs[0]@ == dense_value(
            x.shape@,
            x.values().map_values(|v: int| clamped(v, self.c as int)),
            x.data_type,
            x.sf,
            Role::Output,
        )
    }

    fn run(&self, inputs: &[&Witness], advice: &[i128]) -> (r: Vec<Witness>) {
        let x = inputs[0];
        let poly = x.data.as_ref().unwrap();
        let n = crate::math::two_to(crate::arith::get_n(x.shape.as_slice()));
        let neg_c = Fr::zero().sub(Fr::from_u64(self.c));
        let c = self.c as i128;
        let ghost goal = x.values().map_values(|v: int| clamped(v, self.c as int));
        let mut y_data: Vec<Fr> = Vec::with_capacity(n);
        let mut i: usize = 0;
        while i < n
            invariant
                i <= n,
                self.can_run(inputs@, advice@),
                x == inputs@[0],
                *poly == x.data->0,
                n == pow2(poly.vars()),
                n == poly.values().len(),
                c == self.c,
                neg_c@ == (-self.c) % modulus(),
                goal == x.values().map_values(|v: int| clamped(v, self.c as int)),
                y_data@.len() == i,
                forall|j: int| 0 <= j < i ==> (#[trigger] y_data@[j])@ == goal[j],
            decreases n - i,
        {
            let x_i = poly.index(i);
            assert(is_small(x.values()[i as int]));
            if f_to_int(x_i) < -c {
                y_data.push(neg_c);
            } else {
                y_data.push(x_i);
            }
            i += 1;
        }
        assert(vals(y_data@) =~= goal);
        let y = Witness::new(
            copy_words(x.shape.as_slice()),
            y_data,
            x.data_type,
            x.sf,
            Role::Output,
        );
        let mut r: Vec<Witness> = Vec::new();
        r.push(y);
        r
    }

    open spec fn can_prove(
        &self,
        witnesses: Seq<&Witness>,
        edge_ids: Seq<usize>,
        out_claims: Seq<&Claim>,
    ) -> bool {
        can_claim_input(witnesses, edge_ids, out_claims)
    }

    open spec fn proved(
        &self,
        witnesses: Seq<&Witness>,
        edge_ids: Seq<usize>,
        out_claims: Seq<&Claim>,
        log: Seq<int>,
        proofs: Seq<SumcheckProof>,
        claims: Seq<Claim>,
        after: Seq<int>,
    ) -> bool {
        &&& proofs.len() == 0
        &&& input_claimed(witnesses, edge_ids, out_claims, claims)
        &&& after == log
    }

    fn prove(
        &self,
        witnesses: &[&Witness],
        edge_ids: &[usize],
        out_claims: &[&Claim],
        transcript: &mut Transcript,
    ) -> (r: (Vec<SumcheckProof>, Vec<Claim>)) {
        (Vec::new(), claim_input(witnesses, edge_ids, out_claims))
    }

    open spec fn can_verify(
        &self,
        witnesses: Seq<&Witness>,
        claims: Seq<&Claim>,
        sumcheck_proofs: Seq<&SumcheckProof>,
    ) -> bool {
        true
    }

    open spec fn verified(
        &self,
        witnesses: Seq<&Witness>,
        claims: Seq<&Claim>,
        sumcheck_proofs: Seq<&SumcheckProof>,
        log: Seq<int>,
        r: bool,
        after: Seq<int>,
    ) -> bool {
        r && after == log
    }

    fn verify(
        &self,
        witnesses: &[&Witness],
        claims: &[&Claim],
        sumcheck_proofs: &[&SumcheckProof],
        transcript: &mut Transcript,
    ) -> (r: bool) {
        true
    }
}

/// The output is the larger of the input and `-c`.
pub proof fn lemma_clamped(x: int, c: u64)
    requires
        is_small(x),
    ensures
        signed(clamped(x, c as int)) == (if signed(x) < -c {
            -c as int
        } else {
            signed(x)
        }),
        is_small(clamped(x, c as int)),
{
    lemma_signed(-c);
}

/// The three constraints leave no output but the larger of the input and `-c`.
pub proof fn lemma_clamp_constraints(x: int, y: int, c: int)
    requires
        y - x >= 0,
        y + c >= 0,
        (y - x) * (y + c) == 0,
    ensures
        y == (if x < -c {
            -c
        } else {
            x
        }),
{
    assert(y == x || y == -c) by (nonlinear_arith)
        requires
            (y - x) * (y + c) == 0,
    ;
}

/// The assertion that a tensor is zero everywhere.
///
/// Its output, a single zero, is there for the node to have an edge; nothing reads it.
#[derive(Clone, Copy, Debug)]
pub struct ZeroCheck;

impl BasicBlock for ZeroCheck {
    open spec fn can_run(&self, inputs: Seq<&Witness>, advice: Seq<i128>) -> bool {
        true
    }

    open spec fn ran(
        &self,
        inputs: Seq<&Witness>,
        advice: Seq<i128>,
        outputs: Seq<Witness>,
    ) -> bool {
        &&& outputs.len() == 1
        &&& outputs[0]@ == dense_value(
            seq![1usize],
            seq![0int],
            DataType::Float,
            0,
            Role::Auxiliary,
        )
    }

    fn run(&self, inputs: &[&Witness], advice: &[i128]) -> (r: Vec<Witness>) {
        let mut shape: Vec<usize> = Vec::new();
        shape.push(1);
        let mut data: Vec<Fr> = Vec::new();
        data.push(Fr::zero());
        proof {
            lemma_few_dims(1, 1, 1);
            assert(shape@ =~= seq![1usize]);
            assert(vals(data@) =~= seq![0int]);
        }
        let mut r: Vec<Witness> = Vec::new();
        r.push(Witness::new(shape, data, DataType::Float, 0, Role::Auxiliary));
        r
    }

    open spec fn can_prove(
        &self,
        witnesses: Seq<&Witness>,
        edge_ids: Seq<usize>,
        out_claims: Seq<&Claim>,
    ) -> bool {
        true
    }

    open spec fn proved(
        &self,
        witnesses: Seq<&Witness>,
        edge_ids: Seq<usize>,
        out_claims: Seq<&Claim>,
        log: Seq<int>,
        proofs: Seq<SumcheckProof>,
        claims: Seq<Claim>,
        after: Seq<int>,
    ) -> bool {
        nothing_proved(log, proofs, claims, after)
    }

    fn prove(
        &self,
        witnesses: &[&Witness],
        edge_ids: &[usize],
        out_claims: &[&Claim],
        transcript: &mut Transcript,
    ) -> (r: (Vec<SumcheckProof>, Vec<Claim>)) {
        (Vec::new(), Vec::new())
    }

    open spec fn can_verify(
        &self,
        witnesses: Seq<&Witness>,
        claims: Seq<&Claim>,
        sumcheck_proofs: Seq<&SumcheckProof>,
    ) -> bool {
        true
    }

    open spec fn verified(
        &self,
        witnesses: Seq<&Witness>,
        claims: Seq<&Claim>,
        sumcheck_proofs: Seq<&SumcheckProof>,
        log: Seq<int>,
        r: bool,
        after: Seq<int>,
    ) -> bool {
        &&& r <==> forall|i: int| 0 <= i < claims.len() ==> (#[trigger] claims[i]).eval@ == 0
        &&& after == log
    }

    fn verify(
        &self,
        witnesses: &[&Witness],
        claims: &[&Claim],
        sumcheck_proofs: &[&SumcheckProof],
        transcript: &mut Transcript,
    ) -> (r: bool) {
        let zero = Fr::zero();
        let mut i: usize = 0;
        while i < claims.len()
            invariant
                i <= claims@.len(),
                zero@ == 0,
                forall|j: int| 0 <= j < i ==> (#[trigger] claims@[j]).eval@ == 0,
            decreases claims.len() - i,
        {
            if !claims[i].eval.equals(&zero) {
                assert(claims@[i as int].eval@ != 0);
                return false;
            }
            i += 1;
        }
        true
    }
}

} // verus!
