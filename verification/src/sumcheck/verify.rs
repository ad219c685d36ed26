//! The sum-check verifier.
use crate::field::{lemma_vals_push, modulus, vals, Fr};
use crate::math::{cong, lemma_cong_add, lemma_reduced};
use crate::poly::univariate::{evaluate_univariate_polynomial, interpolated, passes_through};
use crate::sumcheck::prover::{append_header, append_message, header, messages};
use crate::sumcheck::theory::{
    fits, honest, lemma_last_sum, lemma_round_degree, lemma_round_sum, partial_sum,
    rounds_challenges, rounds_log, value_at,
};
use crate::transcript::Transcript;
use vstd::prelude::*;

verus! {

/// Verifier of sum-check proofs.
pub struct SumcheckVerifier {
    /// The number of variables of the sum.
    pub num_var: usize,
    /// The bound on the degree of the round polynomials.
    pub num_poly: usize,
}

/// The sum that round `i` has to account for: the claimed sum at first, then the value of the last
/// round polynomial at the last challenge.
pub open spec fn running_sum(
    claimed_sum: int,
    msgs: Seq<Seq<int>>,
    challenges: Seq<int>,
    i: int,
) -> int {
    if i <= 0 {
        claimed_sum
    } else {
        interpolated(msgs[i - 1], challenges[i - 1]) % modulus()
    }
}

/// Round `i` has a message of the right length whose values at 0 and 1 add up to the running sum.
pub open spec fn round_ok(
    num_poly: int,
    claimed_sum: int,
    msgs: Seq<Seq<int>>,
    challenges: Seq<int>,
    i: int,
) -> bool {
    &&& msgs[i].len() == num_poly + 1
    &&& (msgs[i][0] + msgs[i][1]) % modulus() == running_sum(claimed_sum, msgs, challenges, i)
}

/// There are as many messages as variables and every round checks out.
pub open spec fn accepted(
    num_var: int,
    num_poly: int,
    claimed_sum: int,
    msgs: Seq<Seq<int>>,
    challenges: Seq<int>,
) -> bool {
    &&& msgs.len() == num_var
    &&& forall|i: int|
        0 <= i < num_var ==> #[trigger] round_ok(num_poly, claimed_sum, msgs, challenges, i)
}

/// The interpolation of the message is the value of every polynomial that passes through it.
pub open spec fn interpolates(msg: Seq<int>, x: int) -> bool {
    forall|q: spec_fn(int) -> int| #[trigger]
        passes_through(q, msg) ==> interpolated(msg, x) % modulus() == q(x) % modulus()
}

/// In an honest run the running sum of round `i` is the sum over the remaining variables.
proof fn lemma_running_sum(
    terms: Seq<(int, Seq<Seq<int>>)>,
    claimed_sum: int,
    msgs: Seq<Seq<int>>,
    challenges: Seq<int>,
    d: nat,
    i: int,
)
    requires
        0 <= i <= msgs.len(),
        fits(terms, msgs.len(), d),
        honest(terms, challenges, msgs, d),
        claimed_sum == partial_sum(terms, Seq::<int>::empty(), msgs.len()) % modulus(),
        forall|k: int| 0 <= k < i ==> interpolates(#[trigger] msgs[k], challenges[k]),
    ensures
        running_sum(claimed_sum, msgs, challenges, i) == partial_sum(
            terms,
            challenges.take(i),
            (msgs.len() - i) as nat,
        ) % modulus(),
{
    let n = msgs.len();
    if i == 0 {
        assert(challenges.take(0) =~= Seq::<int>::empty());
    } else {
        let prefix = challenges.take(i - 1);
        let m = (n - i) as nat;
        let q = |x: int| partial_sum(terms, prefix.push(x), m);
        lemma_round_degree(terms, prefix, m, d);
        let msg = msgs[i - 1];
        assert(msg.len() == d + 1);
        assert forall|c: int| 0 <= c < msg.len() implies cong(#[trigger] q(c), msg[c]) by {
            lemma_reduced(q(c));
        }
        assert(passes_through(q, msg));
        assert(interpolates(msg, challenges[i - 1]));
        assert(prefix.push(challenges[i - 1]) =~= challenges.take(i));
    }
}

/// In an honest run every round checks out.
proof fn lemma_honest_round(
    terms: Seq<(int, Seq<Seq<int>>)>,
    claimed_sum: int,
    msgs: Seq<Seq<int>>,
    challenges: Seq<int>,
    d: nat,
    i: int,
)
    requires
        0 <= i < msgs.len(),
        d >= 1,
        fits(terms, msgs.len(), d),
        honest(terms, challenges, msgs, d),
        claimed_sum == partial_sum(terms, Seq::<int>::empty(), msgs.len()) % modulus(),
        forall|k: int| 0 <= k < i ==> interpolates(#[trigger] msgs[k], challenges[k]),
    ensures
        round_ok(d as int, claimed_sum, msgs, challenges, i),
{
    let m = (msgs.len() - i - 1) as nat;
    let prefix = challenges.take(i);
    lemma_running_sum(terms, claimed_sum, msgs, challenges, d, i);
    lemma_round_sum(terms, prefix, m);
    let a = partial_sum(terms, prefix.push(0), m);
    let b = partial_sum(terms, prefix.push(1), m);
    lemma_reduced(a);
    lemma_reduced(b);
    assert(msgs[i].len() == d + 1);
    assert(msgs[i][0] == a % modulus());
    assert(msgs[i][1] == b % modulus());
    lemma_cong_add(msgs[i][0], a, msgs[i][1], b);
}

/// What the verifier makes of the messages: the result `r`, and the log `after` that it leaves.
pub open spec fn verdict(
    n: nat,
    d: nat,
    log: Seq<int>,
    msgs: Seq<Seq<int>>,
    claimed_sum: int,
    r: (Option<Fr>, Vec<Fr>),
    after: Seq<int>,
) -> bool {
    let challenges = rounds_challenges(log, msgs, n as int);
    &&& r.0 is Some <==> accepted(n as int, d as int, claimed_sum, msgs, challenges)
    &&& r.0 is Some ==> {
        &&& r.0->0@ == running_sum(claimed_sum, msgs, challenges, n as int)
        &&& vals(r.1@) == challenges
        &&& after == rounds_log(log, msgs, n as int)
    }
    &&& r.0 is None ==> r.1@.len() == 0
    &&& msgs.len() != n ==> after == log
    &&& msgs.len() == n && r.0 is None ==> exists|k: int|
        0 <= k < n && !round_ok(d as int, claimed_sum, msgs, challenges, k) && (forall|i: int|
            0 <= i < k ==> #[trigger] round_ok(d as int, claimed_sum, msgs, challenges, i)) && after
            == #[trigger] rounds_log(log, msgs, k)
    &&& forall|terms: Seq<(int, Seq<Seq<int>>)>| #[trigger]
        honest(terms, challenges, msgs, d) && msgs.len() == n && fits(terms, n, d) && claimed_sum
            == partial_sum(terms, Seq::<int>::empty(), n) % modulus() ==> r.0 is Some && r.0->0@
            == value_at(terms, challenges) % modulus()
}

impl SumcheckVerifier {
    pub fn new(num_var: usize, num_poly: usize, transcript: &mut Transcript) -> (r:
        SumcheckVerifier)
        ensures
            r.num_var == num_var,
            r.num_poly == num_poly,
            final(transcript)@ == header(old(transcript)@, num_var as int, num_poly as int),
    {
        append_header(num_var, num_poly, transcript);
        SumcheckVerifier { num_var, num_poly }
    }

    /// Verifies a sum-check proof. An accepted proof gives the value that the summed expression
    /// must have at the challenge point, and that point.
    ///
    /// The messages of an honest prover for a sum that is as claimed are accepted, and the value
    /// given is that of the summed expression at the challenge point.
    pub fn verify(
        &mut self,
        transcript: &mut Transcript,
        round_messages: Vec<Vec<Fr>>,
        claimed_sum: Fr,
    ) -> (r: (Option<Fr>, Vec<Fr>))
        requires
            1 <= old(self).num_poly < u32::MAX,
        ensures
            *final(self) == *old(self),
            verdict(
                old(self).num_var as nat,
                old(self).num_poly as nat,
                old(transcript)@,
                messages(round_messages@),
                claimed_sum@,
                r,
                final(transcript)@,
            ),
    {
        let ghost n = self.num_var as int;
        let ghost d = self.num_poly as int;
        let ghost log = transcript@;
        let ghost msgs = messages(round_messages@);
        let ghost all = rounds_challenges(log, msgs, n);
        if round_messages.len() != self.num_var {
            return (None, Vec::new());
        }
        let mut challenges: Vec<Fr> = Vec::new();
        let mut running = claimed_sum;
        let mut round: usize = 0;
        while round < round_messages.len()
            invariant
                round <= round_messages@.len(),
                round_messages@.len() == n,
                msgs == messages(round_messages@),
                n == self.num_var,
                d == self.num_poly,
                1 <= d < u32::MAX,
                *self == *old(self),
                log == old(transcript)@,
                all == rounds_challenges(log, msgs, n),
                transcript@ == rounds_log(log, msgs, round as int),
                vals(challenges@) == all.take(round as int),
                running@ == running_sum(claimed_sum@, msgs, all, round as int),
                forall|i: int|
                    0 <= i < round ==> #[trigger] round_ok(d, claimed_sum@, msgs, all, i),
                forall|k: int| 0 <= k < round ==> interpolates(#[trigger] msgs[k], all[k]),
            decreases round_messages.len() - round,
        {
            let message = &round_messages[round];
            assert(msgs[round as int] == vals(message@));
            if message.len() != self.num_poly + 1 {
                proof {
                    assert(!round_ok(d, claimed_sum@, msgs, all, round as int));
                    Self::lemma_rejected(claimed_sum@, msgs, all, d as nat, round as int);
                }
                return (None, Vec::new());
            }
            if !message[0].add(message[1]).equals(&running) {
                proof {
                    assert(!round_ok(d, claimed_sum@, msgs, all, round as int));
                    Self::lemma_rejected(claimed_sum@, msgs, all, d as nat, round as int);
                }
                return (None, Vec::new());
            }
            append_message(message, transcript);
            let challenge = transcript.challenge_scalar("challenge");
            running = evaluate_univariate_polynomial(message, challenge);
            proof {
                lemma_vals_push(challenges@, challenge);
            }
            challenges.push(challenge);
            proof {
                assert(all[round as int] == challenge@);
                assert(vals(challenges@) =~= all.take(round + 1));
            }
            round += 1;
        }
        proof {
            assert(all.take(n) =~= all);
            assert forall|terms: Seq<(int, Seq<Seq<int>>)>| #[trigger]
                honest(terms, all, msgs, d as nat) && fits(terms, n as nat, d as nat)
                    && claimed_sum@ == partial_sum(terms, Seq::<int>::empty(), n as nat)
                    % modulus() implies running@ == value_at(terms, all) % modulus() by {
                lemma_running_sum(terms, claimed_sum@, msgs, all, d as nat, n);
                lemma_last_sum(terms, all);
            }
        }
        (Some(running), challenges)
    }

    /// A run in which a round does not check out is not an honest one.
    proof fn lemma_rejected(
        claimed_sum: int,
        msgs: Seq<Seq<int>>,
        challenges: Seq<int>,
        d: nat,
        k: int,
    )
        requires
            0 <= k < msgs.len(),
            d >= 1,
            !round_ok(d as int, claimed_sum, msgs, challenges, k),
            forall|i: int| 0 <= i < k ==> interpolates(#[trigger] msgs[i], challenges[i]),
        ensures
            forall|terms: Seq<(int, Seq<Seq<int>>)>|
                !(#[trigger] honest(terms, challenges, msgs, d) && fits(terms, msgs.len(), d)
                    && claimed_sum == partial_sum(terms, Seq::<int>::empty(), msgs.len())
                    % modulus()),
    {
        assert forall|terms: Seq<(int, Seq<Seq<int>>)>| #[trigger]
            honest(terms, challenges, msgs, d) && fits(terms, msgs.len(), d) && claimed_sum
                == partial_sum(
                    terms,
                    Seq::<int>::empty(),
                    msgs.len(),
                ) % modulus() implies false by {
            lemma_honest_round(terms, claimed_sum, msgs, challenges, d, k);
        }
    }
}

} // verus!
