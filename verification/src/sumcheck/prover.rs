//! What every sum-check prover does.
use crate::field::{modulus, vals, Fr};
use crate::sumcheck::theory::{
    honest, message_appended, rounds_challenges, rounds_log, value_at,
};
use crate::transcript::{appended, Transcript};
use vstd::prelude::*;

verus! {

/// A sum-check proof.
#[derive(Debug)]
pub struct SumcheckProof {
    /// The value of the summed expression at the challenge point.
    pub final_eval: Fr,
    /// For each round, the round polynomial's values at `0, 1, 2, ...`.
    pub round_messages: Vec<Vec<Fr>>,
}

/// The integers that a list of round messages stands for.
pub open spec fn messages(round_messages: Seq<Vec<Fr>>) -> Seq<Seq<int>> {
    round_messages.map_values(|m: Vec<Fr>| vals(m@))
}

/// The log of a transcript after the size of a sum-check instance has been appended.
pub open spec fn header(log: Seq<int>, num_var: int, num_poly: int) -> Seq<int> {
    appended(appended(log, "num_var"@, num_var), "num_poly"@, num_poly)
}

/// A run of an honest prover of the sum of `terms` over `n` variables, from a transcript with the log
/// `log` to one with the log `after`.
pub open spec fn proven(
    terms: Seq<(int, Seq<Seq<int>>)>,
    n: nat,
    d: nat,
    log: Seq<int>,
    proof: SumcheckProof,
    after: Seq<int>,
) -> bool {
    let msgs = messages(proof.round_messages@);
    let challenges = rounds_challenges(log, msgs, n as int);
    &&& msgs.len() == n
    &&& honest(terms, challenges, msgs, d)
    &&& proof.final_eval@ == value_at(terms, challenges) % modulus()
    &&& after == rounds_log(log, msgs, n as int)
}

/// A prover for one shape of summed expression.
pub trait SumcheckProver: Sized {
    type Instance;

    /// The number of variables of the sum.
    spec fn vars(&self) -> nat;

    /// The bound on the degree of the round polynomials.
    spec fn degree(&self) -> nat;

    /// The prover has run no round yet.
    spec fn fresh(&self) -> bool;

    /// The instance has the shape that the prover was made for.
    spec fn admits(&self, instances: &Self::Instance) -> bool;

    /// The sum of products that an instance stands for.
    spec fn terms(&self, instances: &Self::Instance) -> Seq<(int, Seq<Seq<int>>)>;

    fn new(num_var: usize, num_polys: usize, transcript: &mut Transcript) -> (r: Self)
        ensures
            r.vars() == num_var,
            r.degree() == num_polys,
            r.fresh(),
            final(transcript)@ == header(old(transcript)@, num_var as int, num_polys as int),
    ;

    /// Runs the protocol: each round's message goes into the transcript, and the challenge that
    /// the transcript gives fixes the next variable.
    fn prove(
        &mut self,
        instances: &Self::Instance,
        transcript: &mut Transcript,
    ) -> (proof: SumcheckProof)
        requires
            old(self).fresh(),
            old(self).admits(instances),
        ensures
            proven(
                old(self).terms(instances),
                old(self).vars(),
                old(self).degree(),
                old(transcript)@,
                proof,
                final(transcript)@,
            ),
    ;
}

/// Appends the size of an instance to the transcript.
pub fn append_header(num_var: usize, num_poly: usize, transcript: &mut Transcript)
    ensures
        final(transcript)@ == header(old(transcript)@, num_var as int, num_poly as int),
{
    transcript.append_u64("num_var", num_var as u64);
    transcript.append_u64("num_poly", num_poly as u64);
}

/// Appends a round message to the transcript.
pub fn append_message(message: &Vec<Fr>, transcript: &mut Transcript)
    ensures
        final(transcript)@ == message_appended(old(transcript)@, vals(message@)),
{
    let ghost log = transcript@;
    let ghost msg = vals(message@);
    let mut i: usize = 0;
    assert(msg.take(0) =~= Seq::<int>::empty());
    while i < message.len()
        invariant
            i <= message@.len(),
            msg == vals(message@),
            transcript@ == message_appended(log, msg.take(i as int)),
        decreases message.len() - i,
    {
        transcript.append_scalar("round_message", &message[i]);
        proof {
            let longer = msg.take(i + 1);
            assert(longer.drop_last() =~= msg.take(i as int));
            assert(longer.last() == message@[i as int]@);
        }
        i += 1;
    }
    assert(msg.take(message@.len() as int) =~= msg);
}

/// A log after `i` rounds depends on the first `i` messages alone.
pub proof fn lemma_rounds_log_prefix(
    log: Seq<int>,
    a: Seq<Seq<int>>,
    b: Seq<Seq<int>>,
    i: int,
)
    requires
        forall|k: int| 0 <= k < i ==> #[trigger] a[k] == b[k],
    ensures
        rounds_log(log, a, i) == rounds_log(log, b, i),
    decreases i,
{
    if i > 0 {
        lemma_rounds_log_prefix(log, a, b, i - 1);
    }
}

/// Challenges of `i` rounds depend on the first `i` messages alone.
pub proof fn lemma_rounds_challenges_prefix(
    log: Seq<int>,
    a: Seq<Seq<int>>,
    b: Seq<Seq<int>>,
    i: int,
)
    requires
        forall|k: int| 0 <= k < i ==> #[trigger] a[k] == b[k],
    ensures
        rounds_challenges(log, a, i) == rounds_challenges(log, b, i),
{
    let p = rounds_challenges(log, a, i);
    let q = rounds_challenges(log, b, i);
    assert forall|k: int| 0 <= k < p.len() implies p[k] == q[k] by {
        lemma_rounds_log_prefix(log, a, b, k);
    }
    assert(p =~= q);
}

} // verus!
