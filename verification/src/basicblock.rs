//! The operations of a computation graph.
use crate::arith::is_small;
use crate::field::{modulus, vals, Fr};
use crate::mle::mle;
use crate::poly::sparse::SelectionPolynomial;
use crate::sumcheck::prover::SumcheckProof;
use crate::transcript::Transcript;
use crate::witness::{Claim, DataType, Poly, PolyType, Role, Witness};
use vstd::arithmetic::power2::pow2;
use vstd::prelude::*;

pub mod add;
pub mod clamp;
pub mod einsum;
pub mod exp;
pub mod llama;
pub mod permute;
pub mod range;
pub mod reducer;
pub mod scale;
pub mod shape;

pub use add::{Add, Sub};
pub use clamp::{ClampLower, ZeroCheck};
pub use einsum::Einsum;
pub use exp::{ExpHelper, NonStructuredExp, TwoPow};
pub use llama::{DivConst, RMSReciprocal, Reciprocal, SigmoidConst, SoftmaxConst};
pub use permute::Permute;
pub use range::NonNegative;
pub use reducer::Reducer;
pub use scale::{ScaleDown, ScaleUp};
pub use shape::ChangeShape;

verus! {

/// An operation: how its outputs are computed, and how claims about them are reduced to claims
/// about its inputs.
pub trait BasicBlock {
    /// The inputs have the shapes and values that the operation is for.
    spec fn can_run(&self, inputs: Seq<&Witness>, advice: Seq<i128>) -> bool;

    /// The operation takes the inputs to the outputs.
    spec fn ran(&self, inputs: Seq<&Witness>, advice: Seq<i128>, outputs: Seq<Witness>) -> bool;

    /// Computes the outputs. An operation on real numbers takes as `advice` the integers that they
    /// were rounded to.
    fn run(&self, inputs: &[&Witness], advice: &[i128]) -> (r: Vec<Witness>)
        requires
            self.can_run(inputs@, advice@),
        ensures
            self.ran(inputs@, advice@, r@),
    ;

    /// The tensors and the claims are those of an application of the operation.
    spec fn can_prove(
        &self,
        witnesses: Seq<&Witness>,
        edge_ids: Seq<usize>,
        out_claims: Seq<&Claim>,
    ) -> bool;

    /// The proofs and claims that the operation gives with a transcript that holds `log`, and what
    /// the transcript holds after.
    spec fn proved(
        &self,
        witnesses: Seq<&Witness>,
        edge_ids: Seq<usize>,
        out_claims: Seq<&Claim>,
        log: Seq<int>,
        proofs: Seq<SumcheckProof>,
        claims: Seq<Claim>,
        after: Seq<int>,
    ) -> bool;

    /// Reduces claims about the outputs to claims about the inputs.
    fn prove(
        &self,
        witnesses: &[&Witness],
        edge_ids: &[usize],
        out_claims: &[&Claim],
        transcript: &mut Transcript,
    ) -> (r: (Vec<SumcheckProof>, Vec<Claim>))
        requires
            self.can_prove(witnesses@, edge_ids@, out_claims@),
        ensures
            self.proved(
                witnesses@,
                edge_ids@,
                out_claims@,
                old(transcript)@,
                r.0@,
                r.1@,
                final(transcript)@,
            ),
    ;

    /// The claims and the proofs have the numbers that the operation asks for.
    spec fn can_verify(
        &self,
        witnesses: Seq<&Witness>,
        claims: Seq<&Claim>,
        sumcheck_proofs: Seq<&SumcheckProof>,
    ) -> bool;

    /// The verdict, and what the transcript holds after.
    spec fn verified(
        &self,
        witnesses: Seq<&Witness>,
        claims: Seq<&Claim>,
        sumcheck_proofs: Seq<&SumcheckProof>,
        log: Seq<int>,
        r: bool,
        after: Seq<int>,
    ) -> bool;

    /// Verifies that the claims about the outputs were reduced as they should be.
    fn verify(
        &self,
        witnesses: &[&Witness],
        claims: &[&Claim],
        sumcheck_proofs: &[&SumcheckProof],
        transcript: &mut Transcript,
    ) -> (r: bool)
        requires
            self.can_verify(witnesses@, claims@, sumcheck_proofs@),
        ensures
            self.verified(
                witnesses@,
                claims@,
                sumcheck_proofs@,
                old(transcript)@,
                r,
                final(transcript)@,
            ),
    ;
}

/// There is one input, and its value is known.
pub open spec fn one_input(inputs: Seq<&Witness>) -> bool {
    inputs.len() == 1 && inputs[0].filled()
}

/// Every entry stands for a signed integer below the bound in absolute value.
pub open spec fn entries_below(table: Seq<int>, bound: int) -> bool {
    forall|p: int|
        0 <= p < table.len() ==> is_small(#[trigger] table[p]) && -bound < crate::arith::signed(
            table[p],
        ) < bound
}

/// No proof and no claim, and nothing put into the transcript.
pub open spec fn nothing_proved(
    log: Seq<int>,
    proofs: Seq<SumcheckProof>,
    claims: Seq<Claim>,
    after: Seq<int>,
) -> bool {
    proofs.len() == 0 && claims.len() == 0 && after == log
}

/// There is a claim about an output, at a point of the first input's polynomial.
pub open spec fn can_claim_input(
    witnesses: Seq<&Witness>,
    edge_ids: Seq<usize>,
    out_claims: Seq<&Claim>,
) -> bool {
    &&& witnesses.len() >= 1
    &&& edge_ids.len() >= 1
    &&& out_claims.len() >= 1
    &&& witnesses[0].data is Some
    &&& witnesses[0].data->0.valid()
    &&& witnesses[0].data->0.vars() == out_claims[0].point@.len()
}

/// One claim: the value of the first input at the point of the first claim.
pub open spec fn input_claimed(
    witnesses: Seq<&Witness>,
    edge_ids: Seq<usize>,
    out_claims: Seq<&Claim>,
    claims: Seq<Claim>,
) -> bool {
    &&& claims.len() == 1
    &&& claims[0].edge_id == edge_ids[0]
    &&& claims[0].sparse_id == 0
    &&& vals(claims[0].point@) == vals(out_claims[0].point@)
    &&& claims[0].eval@ == mle(witnesses[0].values(), vals(out_claims[0].point@)) % modulus()
}

/// The value of the first input at the point of the first claim.
pub fn claim_input(
    witnesses: &[&Witness],
    edge_ids: &[usize],
    out_claims: &[&Claim],
) -> (r: Vec<Claim>)
    requires
        can_claim_input(witnesses@, edge_ids@, out_claims@),
    ensures
        input_claimed(witnesses@, edge_ids@, out_claims@, r@),
{
    let point = Fr::copy_of(out_claims[0].point.as_slice());
    let eval = witnesses[0].data.as_ref().unwrap().evaluate_at_point(point.as_slice());
    let mut claims: Vec<Claim> = Vec::new();
    claims.push(Claim { edge_id: edge_ids[0], sparse_id: 0, point, eval });
    claims
}

/// An auxiliary tensor that holds the selection of a table position for every entry.
pub open spec fn selects(
    w: Witness,
    shape: Seq<usize>,
    input_num_vars: nat,
    table_num_vars: nat,
    selection: Seq<(usize, usize)>,
    data_type: DataType,
) -> bool {
    &&& w.shape@ == shape
    &&& w.data matches Some(Poly::Sparse(p)) && p.stands_for(
        input_num_vars as usize,
        table_num_vars as usize,
        selection,
    )
    &&& w.poly_type == PolyType::Sparse
    &&& w.data_type == data_type
    &&& w.sf == 0
    &&& w.role == Role::Auxiliary
}

/// Every entry of an input with one of the table positions.
pub open spec fn entry_selection(
    input_num_vars: nat,
    position: spec_fn(int) -> int,
) -> Seq<(usize, usize)> {
    Seq::new(pow2(input_num_vars), |p: int| (p as usize, position(p) as usize))
}

/// The auxiliary tensor of a selection.
pub(crate) fn selection_witness(
    shape: Vec<usize>,
    input_num_vars: usize,
    table_num_vars: usize,
    selection: Vec<(usize, usize)>,
    data_type: DataType,
) -> (r: Witness)
    requires
        input_num_vars < usize::BITS,
        input_num_vars + table_num_vars <= usize::BITS,
        forall|i: int|
            0 <= i < selection@.len() ==> (#[trigger] selection@[i]).0 < pow2(input_num_vars as nat)
                && selection@[i].1 < pow2(table_num_vars as nat),
    ensures
        selects(
            r,
            shape@,
            input_num_vars as nat,
            table_num_vars as nat,
            selection@,
            data_type,
        ),
{
    let polynomial = SelectionPolynomial::new(input_num_vars, table_num_vars, selection);
    proof {
        let (n, t) = (input_num_vars as nat, table_num_vars as nat);
        assert forall|i: int|
            0 <= i < polynomial.selection@.len() implies crate::poly::sparse::pair_index(
            #[trigger] polynomial.selection@[i],
            n,
        ) <= usize::MAX by {
            let pair = polynomial.selection@[i];
            vstd::arithmetic::power2::lemma_pow2_adds(n, t);
            crate::math::lemma_pow2_mono(n + t, usize::BITS as nat);
            vstd::layout::unsigned_int_max_values();
            let (a, b, x, y) = (pair.0 as int, pair.1 as int, pow2(n) as int, pow2(t) as int);
            assert(a + b * x < x * y) by (nonlinear_arith)
                requires
                    0 <= a < x,
                    0 <= b < y,
            ;
        }
    }
    let sparse = polynomial.to_sparse();
    Witness {
        shape,
        data: Some(Poly::Sparse(sparse)),
        poly_type: PolyType::Sparse,
        data_type,
        sf: 0,
        role: Role::Auxiliary,
    }
}

/// Any of the operations.
#[derive(Debug)]
pub enum BasicBlockType {
    Add(Add),
    Sub(Sub),
    Einsum(Einsum),
    ExpHelper(ExpHelper),
    TwoPow(TwoPow),
    ChangeShape(ChangeShape),
    ScaleDown(ScaleDown),
    ScaleUp(ScaleUp),
    NonStructuredExp(NonStructuredExp),
    NonNegative(NonNegative),
    Reducer(Reducer),
    Permute(Permute),
    RMSReciprocal(RMSReciprocal),
    Reciprocal(Reciprocal),
    DivConst(DivConst),
    SoftmaxConst(SoftmaxConst),
    SigmoidConst(SigmoidConst),
    ClampLower(ClampLower),
    ZeroCheck(ZeroCheck),
}

/// The number of inputs that an operation takes.
pub open spec fn takes_inputs(kind: &BasicBlockType, n: int) -> bool {
    match kind {
        BasicBlockType::Add(_) => n == 2,
        BasicBlockType::Sub(_) => n == 2,
        BasicBlockType::NonStructuredExp(_) => n == 2,
        BasicBlockType::Einsum(_) => n >= 1,
        _ => n == 1,
    }
}

/// The number of outputs of an operation.
pub open spec fn arity(kind: &BasicBlockType) -> usize {
    match kind {
        BasicBlockType::Permute(_) => 2,
        BasicBlockType::ScaleDown(_) => 2,
        BasicBlockType::ScaleUp(_) => 2,
        BasicBlockType::ExpHelper(_) => 2,
        BasicBlockType::NonStructuredExp(_) => 2,
        _ => 1,
    }
}

impl BasicBlockType {
    /// The number of outputs of the operation.
    pub fn out_arity(&self) -> (r: usize)
        ensures
            r == arity(self),
    {
        match self {
            BasicBlockType::Permute(_) => 2,
            BasicBlockType::ScaleDown(_) => 2,
            BasicBlockType::ScaleUp(_) => 2,
            BasicBlockType::ExpHelper(_) => 2,
            BasicBlockType::NonStructuredExp(_) => 2,
            _ => 1,
        }
    }

    /// Asks that the operation takes `n` inputs.
    pub fn check_inputs(&self, n: usize)
        requires
            takes_inputs(self, n as int),
    {
        assert(takes_inputs(self, n as int));
    }

    /// Whether the operation takes `n` inputs.
    pub fn accepts_inputs(&self, n: usize) -> (r: bool)
        ensures
            r == takes_inputs(self, n as int),
    {
        match self {
            BasicBlockType::Add(_) => n == 2,
            BasicBlockType::Sub(_) => n == 2,
            BasicBlockType::NonStructuredExp(_) => n == 2,
            BasicBlockType::Einsum(_) => n >= 1,
            _ => n == 1,
        }
    }
}

/// An operation does what its kind does. Sums of products are not computed here.
impl BasicBlock for BasicBlockType {
    open spec fn can_run(&self, inputs: Seq<&Witness>, advice: Seq<i128>) -> bool {
        match self {
            BasicBlockType::Add(b) => b.can_run(inputs, advice),
            BasicBlockType::Sub(b) => b.can_run(inputs, advice),
            BasicBlockType::Einsum(_) => false,
            BasicBlockType::ExpHelper(b) => b.can_run(inputs, advice),
            BasicBlockType::TwoPow(b) => b.can_run(inputs, advice),
            BasicBlockType::ChangeShape(b) => b.can_run(inputs, advice),
            BasicBlockType::ScaleDown(b) => b.can_run(inputs, advice),
            BasicBlockType::ScaleUp(b) => b.can_run(inputs, advice),
            BasicBlockType::NonStructuredExp(b) => b.can_run(inputs, advice),
            BasicBlockType::NonNegative(b) => b.can_run(inputs, advice),
            BasicBlockType::Reducer(b) => b.can_run(inputs, advice),
            BasicBlockType::Permute(b) => b.can_run(inputs, advice),
            BasicBlockType::RMSReciprocal(b) => b.can_run(inputs, advice),
            BasicBlockType::Reciprocal(b) => b.can_run(inputs, advice),
            BasicBlockType::DivConst(b) => b.can_run(inputs, advice),
            BasicBlockType::SoftmaxConst(b) => b.can_run(inputs, advice),
            BasicBlockType::SigmoidConst(b) => b.can_run(inputs, advice),
            BasicBlockType::ClampLower(b) => b.can_run(inputs, advice),
            BasicBlockType::ZeroCheck(b) => b.can_run(inputs, advice),
        }
    }

    open spec fn ran(
        &self,
        inputs: Seq<&Witness>,
        advice: Seq<i128>,
        outputs: Seq<Witness>,
    ) -> bool {
        match self {
            BasicBlockType::Add(b) => b.ran(inputs, advice, outputs),
            BasicBlockType::Sub(b) => b.ran(inputs, advice, outputs),
            BasicBlockType::Einsum(_) => true,
            BasicBlockType::ExpHelper(b) => b.ran(inputs, advice, outputs),
            BasicBlockType::TwoPow(b) => b.ran(inputs, advice, outputs),
            BasicBlockType::ChangeShape(b) => b.ran(inputs, advice, outputs),
            BasicBlockType::ScaleDown(b) => b.ran(inputs, advice, outputs),
            BasicBlockType::ScaleUp(b) => b.ran(inputs, advice, outputs),
            BasicBlockType::NonStructuredExp(b) => b.ran(inputs, advice, outputs),
            BasicBlockType::NonNegative(b) => b.ran(inputs, advice, outputs),
            BasicBlockType::Reducer(b) => b.ran(inputs, advice, outputs),
            BasicBlockType::Permute(b) => b.ran(inputs, advice, outputs),
            BasicBlockType::RMSReciprocal(b) => b.ran(inputs, advice, outputs),
            BasicBlockType::Reciprocal(b) => b.ran(inputs, advice, outputs),
            BasicBlockType::DivConst(b) => b.ran(inputs, advice, outputs),
            BasicBlockType::SoftmaxConst(b) => b.ran(inputs, advice, outputs),
            BasicBlockType::SigmoidConst(b) => b.ran(inputs, advice, outputs),
            BasicBlockType::ClampLower(b) => b.ran(inputs, advice, outputs),
            BasicBlockType::ZeroCheck(b) => b.ran(inputs, advice, outputs),
        }
    }

    fn run(&self, inputs: &[&Witness], advice: &[i128]) -> (r: Vec<Witness>) {
        match self {
            BasicBlockType::Add(b) => b.run(inputs, advice),
            BasicBlockType::Sub(b) => b.run(inputs, advice),
            BasicBlockType::Einsum(_) => Vec::new(),
            BasicBlockType::ExpHelper(b) => b.run(inputs, advice),
            BasicBlockType::TwoPow(b) => b.run(inputs, advice),
            BasicBlockType::ChangeShape(b) => b.run(inputs, advice),
            BasicBlockType::ScaleDown(b) => b.run(inputs, advice),
            BasicBlockType::ScaleUp(b) => b.run(inputs, advice),
            BasicBlockType::NonStructuredExp(b) => b.run(inputs, advice),
            BasicBlockType::NonNegative(b) => b.run(inputs, advice),
            BasicBlockType::Reducer(b) => b.run(inputs, advice),
            BasicBlockType::Permute(b) => b.run(inputs, advice),
            BasicBlockType::RMSReciprocal(b) => b.run(inputs, advice),
            BasicBlockType::Reciprocal(b) => b.run(inputs, advice),
            BasicBlockType::DivConst(b) => b.run(inputs, advice),
            BasicBlockType::SoftmaxConst(b) => b.run(inputs, advice),
            BasicBlockType::SigmoidConst(b) => b.run(inputs, advice),
            BasicBlockType::ClampLower(b) => b.run(inputs, advice),
            BasicBlockType::ZeroCheck(b) => b.run(inputs, advice),
        }
    }

    open spec fn can_prove(
        &self,
        witnesses: Seq<&Witness>,
        edge_ids: Seq<usize>,
        out_claims: Seq<&Claim>,
    ) -> bool {
        match self {
            BasicBlockType::Add(b) => b.can_prove(witnesses, edge_ids, out_claims),
            BasicBlockType::Sub(b) => b.can_prove(witnesses, edge_ids, out_claims),
            BasicBlockType::Einsum(_) => false,
            BasicBlockType::ExpHelper(b) => b.can_prove(witnesses, edge_ids, out_claims),
            BasicBlockType::TwoPow(b) => b.can_prove(witnesses, edge_ids, out_claims),
            BasicBlockType::ChangeShape(b) => b.can_prove(witnesses, edge_ids, out_claims),
            BasicBlockType::ScaleDown(b) => b.can_prove(witnesses, edge_ids, out_claims),
            BasicBlockType::ScaleUp(b) => b.can_prove(witnesses, edge_ids, out_claims),
            BasicBlockType::NonStructuredExp(b) => b.can_prove(witnesses, edge_ids, out_claims),
            BasicBlockType::NonNegative(b) => b.can_prove(witnesses, edge_ids, out_claims),
            BasicBlockType::Reducer(b) => b.can_prove(witnesses, edge_ids, out_claims),
            BasicBlockType::Permute(b) => b.can_prove(witnesses, edge_ids, out_claims),
            BasicBlockType::RMSReciprocal(b) => b.can_prove(witnesses, edge_ids, out_claims),
            BasicBlockType::Reciprocal(b) => b.can_prove(witnesses, edge_ids, out_claims),
            BasicBlockType::DivConst(b) => b.can_prove(witnesses, edge_ids, out_claims),
            BasicBlockType::SoftmaxConst(b) => b.can_prove(witnesses, edge_ids, out_claims),
            BasicBlockType::SigmoidConst(b) => b.can_prove(witnesses, edge_ids, out_claims),
            BasicBlockType::ClampLower(b) => b.can_prove(witnesses, edge_ids, out_claims),
            BasicBlockType::ZeroCheck(b) => b.can_prove(witnesses, edge_ids, out_claims),
        }
    }

    open spec fn proved(
        &self,
        witnesses: Seq<&Witness>,
        edge_ids: Seq<usize>,
        out_claims: Seq<&Claim>,
        log: Seq<int>,
        proofs: Seq<SumcheckProof>,
        claims: Seq<Claim>,
        after: Seq<int>,
    ) -> bool {
        match self {
            BasicBlockType::Add(b) => b.proved(
                witnesses,
                edge_ids,
                out_claims,
                log,
                proofs,
                claims,
                after,
            ),
            BasicBlockType::Sub(b) => b.proved(
                witnesses,
                edge_ids,
                out_claims,
                log,
                proofs,
                claims,
                after,
            ),
            BasicBlockType::Einsum(_) => true,
            BasicBlockType::ExpHelper(b) => b.proved(
                witnesses,
                edge_ids,
                out_claims,
                log,
                proofs,
                claims,
                after,
            ),
            BasicBlockType::TwoPow(b) => b.proved(
                witnesses,
                edge_ids,
                out_claims,
                log,
                proofs,
                claims,
                after,
            ),
            BasicBlockType::ChangeShape(b) => b.proved(
                witnesses,
                edge_ids,
                out_claims,
                log,
                proofs,
                claims,
                after,
            ),
            BasicBlockType::ScaleDown(b) => b.proved(
                witnesses,
                edge_ids,
                out_claims,
                log,
                proofs,
                claims,
                after,
            ),
            BasicBlockType::ScaleUp(b) => b.proved(
                witnesses,
                edge_ids,
                out_claims,
                log,
                proofs,
                claims,
                after,
            ),
            BasicBlockType::NonStructuredExp(b) => b.proved(
                witnesses,
                edge_ids,
                out_claims,
                log,
                proofs,
                claims,
                after,
            ),
            BasicBlockType::NonNegative(b) => b.proved(
                witnesses,
                edge_ids,
                out_claims,
                log,
                proofs,
                claims,
                after,
            ),
            BasicBlockType::Reducer(b) => b.proved(
                witnesses,
                edge_ids,
                out_claims,
                log,
                proofs,
                claims,
                after,
            ),
            BasicBlockType::Permute(b) => b.proved(
                witnesses,
                edge_ids,
                out_claims,
                log,
                proofs,
                claims,
                after,
            ),
            BasicBlockType::RMSReciprocal(b) => b.proved(
                witnesses,
                edge_ids,
                out_claims,
                log,
                proofs,
                claims,
                after,
            ),
            BasicBlockType::Reciprocal(b) => b.proved(
                witnesses,
                edge_ids,
                out_claims,
                log,
                proofs,
                claims,
                after,
            ),
            BasicBlockType::DivConst(b) => b.proved(
                witnesses,
                edge_ids,
                out_claims,
                log,
                proofs,
                claims,
                after,
            ),
            BasicBlockType::SoftmaxConst(b) => b.proved(
                witnesses,
                edge_ids,
                out_claims,
                log,
                proofs,
                claims,
                after,
            ),
            BasicBlockType::SigmoidConst(b) => b.proved(
                witnesses,
                edge_ids,
                out_claims,
                log,
                proofs,
                claims,
                after,
            ),
            BasicBlockType::ClampLower(b) => b.proved(
                witnesses,
                edge_ids,
                out_claims,
                log,
                proofs,
                claims,
                after,
            ),
            BasicBlockType::ZeroCheck(b) => b.proved(
                witnesses,
                edge_ids,
                out_claims,
                log,
                proofs,
                claims,
                after,
            ),
        }
    }

    fn prove(
        &self,
        witnesses: &[&Witness],
        edge_ids: &[usize],
        out_claims: &[&Claim],
        transcript: &mut Transcript,
    ) -> (r: (Vec<SumcheckProof>, Vec<Claim>)) {
        match self {
            BasicBlockType::Add(b) => b.prove(witnesses, edge_ids, out_claims, transcript),
            BasicBlockType::Sub(b) => b.prove(witnesses, edge_ids, out_claims, transcript),
            BasicBlockType::Einsum(_) => (Vec::new(), Vec::new()),
            BasicBlockType::ExpHelper(b) => b.prove(witnesses, edge_ids, out_claims, transcript),
            BasicBlockType::TwoPow(b) => b.prove(witnesses, edge_ids, out_claims, transcript),
            BasicBlockType::ChangeShape(b) => b.prove(witnesses, edge_ids, out_claims, transcript),
            BasicBlockType::ScaleDown(b) => b.prove(witnesses, edge_ids, out_claims, transcript),
            BasicBlockType::ScaleUp(b) => b.prove(witnesses, edge_ids, out_claims, transcript),
            BasicBlockType::NonStructuredExp(b) => b.prove(
                witnesses,
                edge_ids,
                out_claims,
                transcript,
            ),
            BasicBlockType::NonNegative(b) => b.prove(witnesses, edge_ids, out_claims, transcript),
            BasicBlockType::Reducer(b) => b.prove(witnesses, edge_ids, out_claims, transcript),
            BasicBlockType::Permute(b) => b.prove(witnesses, edge_ids, out_claims, transcript),
            BasicBlockType::RMSReciprocal(b) => b.prove(
                witnesses,
                edge_ids,
                out_claims,
                transcript,
            ),
            BasicBlockType::Reciprocal(b) => b.prove(witnesses, edge_ids, out_claims, transcript),
            BasicBlockType::DivConst(b) => b.prove(witnesses, edge_ids, out_claims, transcript),
            BasicBlockType::SoftmaxConst(b) => b.prove(witnesses, edge_ids, out_claims, transcript),
            BasicBlockType::SigmoidConst(b) => b.prove(witnesses, edge_ids, out_claims, transcript),
            BasicBlockType::ClampLower(b) => b.prove(witnesses, edge_ids, out_claims, transcript),
            BasicBlockType::ZeroCheck(b) => b.prove(witnesses, edge_ids, out_claims, transcript),
        }
    }

    open spec fn can_verify(
        &self,
        witnesses: Seq<&Witness>,
        claims: Seq<&Claim>,
        sumcheck_proofs: Seq<&SumcheckProof>,
    ) -> bool {
        match self {
            BasicBlockType::Add(b) => b.can_verify(witnesses, claims, sumcheck_proofs),
            BasicBlockType::Sub(b) => b.can_verify(witnesses, claims, sumcheck_proofs),
            BasicBlockType::Einsum(_) => false,
            BasicBlockType::ExpHelper(b) => b.can_verify(witnesses, claims, sumcheck_proofs),
            BasicBlockType::TwoPow(b) => b.can_verify(witnesses, claims, sumcheck_proofs),
            BasicBlockType::ChangeShape(b) => b.can_verify(witnesses, claims, sumcheck_proofs),
            BasicBlockType::ScaleDown(b) => b.can_verify(witnesses, claims, sumcheck_proofs),
            BasicBlockType::ScaleUp(b) => b.can_verify(witnesses, claims, sumcheck_proofs),
            BasicBlockType::NonStructuredExp(b) => b.can_verify(witnesses, claims, sumcheck_proofs),
            BasicBlockType::NonNegative(b) => b.can_verify(witnesses, claims, sumcheck_proofs),
            BasicBlockType::Reducer(b) => b.can_verify(witnesses, claims, sumcheck_proofs),
            BasicBlockType::Permute(b) => b.can_verify(witnesses, claims, sumcheck_proofs),
            BasicBlockType::RMSReciprocal(b) => b.can_verify(witnesses, claims, sumcheck_proofs),
            BasicBlockType::Reciprocal(b) => b.can_verify(witnesses, claims, sumcheck_proofs),
            BasicBlockType::DivConst(b) => b.can_verify(witnesses, claims, sumcheck_proofs),
            BasicBlockType::SoftmaxConst(b) => b.can_verify(witnesses, claims, sumcheck_proofs),
            BasicBlockType::SigmoidConst(b) => b.can_verify(witnesses, claims, sumcheck_proofs),
            BasicBlockType::ClampLower(b) => b.can_verify(witnesses, claims, sumcheck_proofs),
            BasicBlockType::ZeroCheck(b) => b.can_verify(witnesses, claims, sumcheck_proofs),
        }
    }

    open spec fn verified(
        &self,
        witnesses: Seq<&Witness>,
        claims: Seq<&Claim>,
        sumcheck_proofs: Seq<&SumcheckProof>,
        log: Seq<int>,
        r: bool,
        after: Seq<int>,
    ) -> bool {
        match self {
            BasicBlockType::Add(b) => b.verified(witnesses, claims, sumcheck_proofs, log, r, after),
            BasicBlockType::Sub(b) => b.verified(witnesses, claims, sumcheck_proofs, log, r, after),
            BasicBlockType::Einsum(_) => true,
            BasicBlockType::ExpHelper(b) => b.verified(
                witnesses,
                claims,
                sumcheck_proofs,
                log,
                r,
                after,
            ),
            BasicBlockType::TwoPow(b) => b.verified(
                witnesses,
                claims,
                sumcheck_proofs,
                log,
                r,
                after,
            ),
            BasicBlockType::ChangeShape(b) => b.verified(
                witnesses,
                claims,
                sumcheck_proofs,
                log,
                r,
                after,
            ),
            BasicBlockType::ScaleDown(b) => b.verified(
                witnesses,
                claims,
                sumcheck_proofs,
                log,
                r,
                after,
            ),
            BasicBlockType::ScaleUp(b) => b.verified(
                witnesses,
                claims,
                sumcheck_proofs,
                log,
                r,
                after,
            ),
            BasicBlockType::NonStructuredExp(b) => b.verified(
                witnesses,
                claims,
                sumcheck_proofs,
                log,
                r,
                after,
            ),
            BasicBlockType::NonNegative(b) => b.verified(
                witnesses,
                claims,
                sumcheck_proofs,
                log,
                r,
                after,
            ),
            BasicBlockType::Reducer(b) => b.verified(
                witnesses,
                claims,
                sumcheck_proofs,
                log,
                r,
                after,
            ),
            BasicBlockType::Permute(b) => b.verified(
                witnesses,
                claims,
                sumcheck_proofs,
                log,
                r,
                after,
            ),
            BasicBlockType::RMSReciprocal(b) => b.verified(
                witnesses,
                claims,
                sumcheck_proofs,
                log,
                r,
                after,
            ),
            BasicBlockType::Reciprocal(b) => b.verified(
                witnesses,
                claims,
                sumcheck_proofs,
                log,
                r,
                after,
            ),
            BasicBlockType::DivConst(b) => b.verified(
                witnesses,
                claims,
                sumcheck_proofs,
                log,
                r,
                after,
            ),
            BasicBlockType::SoftmaxConst(b) => b.verified(
                witnesses,
                claims,
                sumcheck_proofs,
                log,
                r,
                after,
            ),
            BasicBlockType::SigmoidConst(b) => b.verified(
                witnesses,
                claims,
                sumcheck_proofs,
                log,
                r,
                after,
            ),
            BasicBlockType::ClampLower(b) => b.verified(
                witnesses,
                claims,
                sumcheck_proofs,
                log,
                r,
                after,
            ),
            BasicBlockType::ZeroCheck(b) => b.verified(
                witnesses,
                claims,
                sumcheck_proofs,
                log,
                r,
                after,
            ),
        }
    }

    fn verify(
        &self,
        witnesses: &[&Witness],
        claims: &[&Claim],
        sumcheck_proofs: &[&SumcheckProof],
        transcript: &mut Transcript,
    ) -> (r: bool) {
        match self {
            BasicBlockType::Add(b) => b.verify(witnesses, claims, sumcheck_proofs, transcript),
            BasicBlockType::Sub(b) => b.verify(witnesses, claims, sumcheck_proofs, transcript),
            BasicBlockType::Einsum(_) => false,
            BasicBlockType::ExpHelper(b) => b.verify(
                witnesses,
                claims,
                sumcheck_proofs,
                transcript,
            ),
            BasicBlockType::TwoPow(b) => b.verify(witnesses, claims, sumcheck_proofs, transcript),
            BasicBlockType::ChangeShape(b) => b.verify(
                witnesses,
                claims,
                sumcheck_proofs,
                transcript,
            ),
            BasicBlockType::ScaleDown(b) => b.verify(
                witnesses,
                claims,
                sumcheck_proofs,
                transcript,
            ),
            BasicBlockType::ScaleUp(b) => b.verify(witnesses, claims, sumcheck_proofs, transcript),
            BasicBlockType::NonStructuredExp(b) => b.verify(
                witnesses,
                claims,
                sumcheck_proofs,
                transcript,
            ),
            BasicBlockType::NonNegative(b) => b.verify(
                witnesses,
                claims,
                sumcheck_proofs,
                transcript,
            ),
            BasicBlockType::Reducer(b) => b.verify(witnesses, claims, sumcheck_proofs, transcript),
            BasicBlockType::Permute(b) => b.verify(witnesses, claims, sumcheck_proofs, transcript),
            BasicBlockType::RMSReciprocal(b) => b.verify(
                witnesses,
                claims,
                sumcheck_proofs,
                transcript,
            ),
            BasicBlockType::Reciprocal(b) => b.verify(
                witnesses,
                claims,
                sumcheck_proofs,
                transcript,
            ),
            BasicBlockType::DivConst(b) => b.verify(witnesses, claims, sumcheck_proofs, transcript),
            BasicBlockType::SoftmaxConst(b) => b.verify(
                witnesses,
                claims,
                sumcheck_proofs,
                transcript,
            ),
            BasicBlockType::SigmoidConst(b) => b.verify(
                witnesses,
                claims,
                sumcheck_proofs,
                transcript,
            ),
            BasicBlockType::ClampLower(b) => b.verify(
                witnesses,
                claims,
                sumcheck_proofs,
                transcript,
            ),
            BasicBlockType::ZeroCheck(b) => b.verify(
                witnesses,
                claims,
                sumcheck_proofs,
                transcript,
            ),
        }
    }
}

} // verus!
