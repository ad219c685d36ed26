//! Reading a tensor with another shape.
use crate::basicblock::BasicBlock;
use crate::field::{vals, Fr};
use crate::sumcheck::prover::SumcheckProof;
use crate::transcript::Transcript;
use crate::witness::{copy_words, Claim, Value, Witness};
use vstd::prelude::*;

verus! {

/// The same polynomial under another shape.
#[derive(Debug)]
pub struct ChangeShape {
    pub new_shape: Vec<usize>,
}

impl BasicBlock for ChangeShape {
    open spec fn can_run(&self, inputs: Seq<&Witness>, advice: Seq<i128>) -> bool {
        inputs.len() == 1
    }

    open spec fn ran(
        &self,
        inputs: Seq<&Witness>,
        advice: Seq<i128>,
        outputs: Seq<Witness>,
    ) -> bool {
        &&& outputs.len() == 1
        &&& outputs[0]@ == (Value { shape: self.new_shape@, ..inputs[0]@ })
    }

    fn run(&self, inputs: &[&Witness], advice: &[i128]) -> (r: Vec<Witness>) {
        let mut output = inputs[0].clone();
        output.shape = copy_words(self.new_shape.as_slice());
        let mut r: Vec<Witness> = Vec::new();
        r.push(output);
        r
    }

    open spec fn can_prove(
        &self,
        witnesses: Seq<&Witness>,
        edge_ids: Seq<usize>,
        out_claims: Seq<&Claim>,
    ) -> bool {
        edge_ids.len() >= 1 && out_claims.len() >= 1
    }

    open spec fn proved(
        &self,
        witnesses: Seq<&Witness>,
        edge_ids: Seq<usize>,
        out_claims: Seq<&Claim>,
        log: Seq<int>,
        proofs: Seq<SumcheckProof>,
        claims: Seq<Claim>,
        after: Seq<int>,
    ) -> bool {
        &&& proofs.len() == 0
        &&& claims.len() == 1
        &&& claims[0].edge_id == edge_ids[0]
        &&& claims[0].sparse_id == 0
        &&& vals(claims[0].point@) == vals(out_claims[0].point@)
        &&& claims[0].eval@ == out_claims[0].eval@
        &&& after == log
    }

    fn prove(
        &self,
        witnesses: &[&Witness],
        edge_ids: &[usize],
        out_claims: &[&Claim],
        transcript: &mut Transcript,
    ) -> (r: (Vec<SumcheckProof>, Vec<Claim>)) {
        let mut claims: Vec<Claim> = Vec::new();
        claims.push(
            Claim {
                edge_id: edge_ids[0],
                sparse_id: 0,
                point: Fr::copy_of(out_claims[0].point.as_slice()),
                eval: out_claims[0].eval,
            },
        );
        (Vec::new(), claims)
    }

    open spec fn can_verify(
        &self,
        witnesses: Seq<&Witness>,
        claims: Seq<&Claim>,
        sumcheck_proofs: Seq<&SumcheckProof>,
    ) -> bool {
        true
    }

    open spec fn verified(
        &self,
        witnesses: Seq<&Witness>,
        claims: Seq<&Claim>,
        sumcheck_proofs: Seq<&SumcheckProof>,
        log: Seq<int>,
        r: bool,
        after: Seq<int>,
    ) -> bool {
        r && after == log
    }

    fn verify(
        &self,
        witnesses: &[&Witness],
        claims: &[&Claim],
        sumcheck_proofs: &[&SumcheckProof],
        transcript: &mut Transcript,
    ) -> (r: bool) {
        true
    }
}

} // verus!
