//! The sum-check prover for a product of dense polynomials.
use crate::field::{lemma_fr_range, modulus, vals, CryptoField, Fr};
use crate::math::{
    cong, lemma_cong_add, lemma_cong_mul, lemma_pow2_step, lemma_reduced, product_to, sum_to,
    two_to,
};
use crate::mle::{bits, mle};
use crate::poly::dense::{bind_low, interpolate, lemma_shift_fits, DenseMLPoly};
use crate::sumcheck::prover::{
    append_header, append_message, lemma_rounds_challenges_prefix, lemma_rounds_log_prefix,
    messages, SumcheckProof, SumcheckProver,
};
use crate::sumcheck::theory::{
    bound, lemma_bound_end, lemma_bound_line, lemma_bound_start, lemma_bound_step, partial_sum,
    rounds_challenges, rounds_log, summand_at, value_at,
};
use crate::transcript::Transcript;
use vstd::arithmetic::power2::pow2;
use vstd::prelude::*;

verus! {

/// Proves the sum over the boolean points of the product of `num_poly` dense polynomials.
pub struct LinearSumcheckProver {
    /// The number of variables.
    pub num_var: usize,
    /// The number of polynomials.
    pub num_poly: usize,
    /// The tables of the polynomials with the variables of the past rounds fixed.
    pub a_arrays: Vec<DenseMLPoly>,
    /// The number of rounds run.
    pub current_round: usize,
    /// The challenges of the past rounds.
    pub challenges: Vec<Fr>,
}

/// The tables of a list of polynomials.
pub open spec fn tables_of(polys: Seq<DenseMLPoly>) -> Seq<Seq<int>> {
    polys.map_values(|p: DenseMLPoly| p.table())
}

/// Copies of a list of polynomials.
pub fn copy_polys(polys: &Vec<DenseMLPoly>) -> (r: Vec<DenseMLPoly>)
    ensures
        r@.len() == polys@.len(),
        forall|k: int|
            0 <= k < r@.len() ==> (#[trigger] r@[k]).n == polys@[k].n && r@[k].evaluations@
                == polys@[k].evaluations@,
{
    let mut r: Vec<DenseMLPoly> = Vec::with_capacity(polys.len());
    let mut k: usize = 0;
    while k < polys.len()
        invariant
            k <= polys@.len(),
            r@.len() == k,
            forall|j: int|
                0 <= j < k ==> (#[trigger] r@[j]).n == polys@[j].n && r@[j].evaluations@
                    == polys@[j].evaluations@,
        decreases polys.len() - k,
    {
        r.push(polys[k].clone());
        k += 1;
    }
    r
}

/// Every polynomial of `now` is that of `tables` with the variables of the past rounds fixed.
pub open spec fn all_bound(
    tables: Seq<Seq<int>>,
    now: Seq<DenseMLPoly>,
    prefix: Seq<int>,
    m: nat,
) -> bool {
    &&& now.len() == tables.len()
    &&& forall|k: int|
        0 <= k < tables.len() ==> bound(tables[k], (#[trigger] now[k]).table(), prefix, m)
}

/// Fixes the next variable of every polynomial to `x`.
pub(crate) fn bind_all(
    polys: &mut Vec<DenseMLPoly>,
    half: usize,
    x: Fr,
    tables: Ghost<Seq<Seq<int>>>,
    prefix: Ghost<Seq<int>>,
    m: Ghost<nat>,
)
    requires
        half == pow2(m@),
        all_bound(tables@, old(polys)@, prefix@, m@ + 1),
    ensures
        all_bound(tables@, final(polys)@, prefix@.push(x@), m@),
{
    let ghost before = polys@;
    proof {
        lemma_pow2_step(m@);
    }
    let mut k: usize = 0;
    while k < polys.len()
        invariant
            k <= polys@.len(),
            half == pow2(m@),
            pow2(m@ + 1) == 2 * pow2(m@),
            polys@.len() == before.len(),
            all_bound(tables@, before, prefix@, m@ + 1),
            forall|j: int|
                0 <= j < k ==> bound(
                    tables@[j],
                    (#[trigger] polys@[j]).table(),
                    prefix@.push(x@),
                    m@,
                ),
            forall|j: int| k <= j < before.len() ==> #[trigger] polys@[j] == before[j],
        decreases polys.len() - k,
    {
        assert(bound(tables@[k as int], before[k as int].table(), prefix@, m@ + 1));
        let mut evaluations = Fr::copy_of(polys[k].evaluations.as_slice());
        bind_low(&mut evaluations, half, x);
        proof {
            lemma_bound_step(
                tables@[k as int],
                before[k as int].table(),
                vals(evaluations@),
                prefix@,
                m@,
                x@,
            );
        }
        let n = polys[k].n;
        polys.set(k, DenseMLPoly { n, evaluations });
        k += 1;
    }
}

/// The product over the polynomials of their values on the line through the entries `2 y` and
/// `2 y + 1`, at the point `c`.
pub(crate) fn line_product(
    polys: &Vec<DenseMLPoly>,
    count: usize,
    c: Fr,
    y: usize,
    tables: Ghost<Seq<Seq<int>>>,
    prefix: Ghost<Seq<int>>,
    m: Ghost<nat>,
) -> (r: Fr)
    requires
        count <= polys@.len(),
        y < pow2(m@),
        all_bound(tables@, polys@, prefix@, m@ + 1),
    ensures
        cong(
            r@,
            product_to(
                |k: int| mle(tables@[k], prefix@.push(c@) + bits(y as int, m@)),
                count as int,
            ),
        ),
{
    let ghost f = |k: int| mle(tables@[k], prefix@.push(c@) + bits(y as int, m@));
    let mut acc = Fr::one();
    let mut k: usize = 0;
    proof {
        lemma_pow2_step(m@);
    }
    while k < count
        invariant
            k <= count,
            count <= polys@.len(),
            y < pow2(m@),
            pow2(m@ + 1) == 2 * pow2(m@),
            all_bound(tables@, polys@, prefix@, m@ + 1),
            f == (|k: int| mle(tables@[k], prefix@.push(c@) + bits(y as int, m@))),
            cong(acc@, product_to(f, k as int)),
        decreases count - k,
    {
        assert(bound(tables@[k as int], polys@[k as int].table(), prefix@, m@ + 1));
        assert(polys@[k as int].evaluations.len() == polys@[k as int].table().len());
        let val_0 = polys[k].evaluations[2 * y];
        let val_1 = polys[k].evaluations[2 * y + 1];
        let v = interpolate(val_0, val_1, c);
        let next = acc.mul(v);
        proof {
            let table = polys@[k as int].table();
            lemma_bound_line(tables@[k as int], table, prefix@, m@, c@, y as int);
            lemma_reduced(val_0@ + c@ * (val_1@ - val_0@));
            lemma_cong_mul(acc@, product_to(f, k as int), v@, f(k as int));
            lemma_reduced(acc@ * v@);
        }
        acc = next;
        k += 1;
    }
    acc
}

/// The product over the polynomials of their values, once every variable is fixed.
pub(crate) fn final_product(
    polys: &Vec<DenseMLPoly>,
    count: usize,
    tables: Ghost<Seq<Seq<int>>>,
    point: Ghost<Seq<int>>,
) -> (r: Fr)
    requires
        count <= polys@.len(),
        all_bound(tables@, polys@, point@, 0),
    ensures
        cong(r@, product_to(|k: int| mle(tables@[k], point@), count as int)),
{
    let ghost f = |k: int| mle(tables@[k], point@);
    let mut acc = Fr::one();
    let mut k: usize = 0;
    while k < count
        invariant
            k <= count,
            count <= polys@.len(),
            all_bound(tables@, polys@, point@, 0),
            f == (|k: int| mle(tables@[k], point@)),
            cong(acc@, product_to(f, k as int)),
        decreases count - k,
    {
        proof {
            crate::math::lemma_pow2_small();
            assert(bound(tables@[k as int], polys@[k as int].table(), point@, 0));
        }
        let v = polys[k].evaluations[0];
        let next = acc.mul(v);
        proof {
            lemma_bound_end(tables@[k as int], polys@[k as int].table(), point@);
            lemma_cong_mul(acc@, product_to(f, k as int), v@, f(k as int));
            lemma_reduced(acc@ * v@);
        }
        acc = next;
        k += 1;
    }
    acc
}

impl LinearSumcheckProver {
    /// The prover stands before the next of its rounds on the polynomials with the given tables.
    spec fn in_round(&self, tables: Seq<Seq<int>>) -> bool {
        &&& self.num_var < usize::BITS
        &&& self.num_poly < u32::MAX
        &&& self.num_poly == tables.len()
        &&& self.current_round <= self.num_var
        &&& self.challenges@.len() == self.current_round
        &&& all_bound(
            tables,
            self.a_arrays@,
            vals(self.challenges@),
            (self.num_var - self.current_round) as nat,
        )
    }

    /// The message of the current round: the sum of the product over the remaining variables, with
    /// the next one set to each of `0..=num_poly`.
    fn compute_round_message(&self, tables: Ghost<Seq<Seq<int>>>) -> (msg: Vec<Fr>)
        requires
            self.in_round(tables@),
            self.current_round < self.num_var,
        ensures
            vals(msg@) =~= Seq::new(
                (self.num_poly + 1) as nat,
                |c: int|
                    partial_sum(
                        seq![(1int, tables@)],
                        vals(self.challenges@).push(c),
                        (self.num_var - self.current_round - 1) as nat,
                    ) % modulus(),
            ),
    {
        let half = two_to(self.num_var - self.current_round - 1);
        let ghost prefix = vals(self.challenges@);
        let ghost m = (self.num_var - self.current_round - 1) as nat;
        let ghost terms = seq![(1int, tables@)];
        let mut msg: Vec<Fr> = Vec::new();
        let mut c: usize = 0;
        while c <= self.num_poly
            invariant
                c <= self.num_poly + 1,
                self.num_poly < u32::MAX,
                self.in_round(tables@),
                self.current_round < self.num_var,
                half == pow2(m),
                m == self.num_var - self.current_round - 1,
                prefix == vals(self.challenges@),
                terms == seq![(1int, tables@)],
                vals(msg@) =~= Seq::new(
                    c as nat,
                    |c: int| partial_sum(terms, prefix.push(c), m) % modulus(),
                ),
            decreases self.num_poly + 1 - c,
        {
            let x = Fr::from_u64(c as u64);
            let ghost f = |b: int| value_at(terms, prefix.push(c as int) + bits(b, m));
            let mut sum = Fr::zero();
            let mut y: usize = 0;
            while y < half
                invariant
                    y <= half,
                    half == pow2(m),
                    m == self.num_var - self.current_round - 1,
                    self.in_round(tables@),
                    prefix == vals(self.challenges@),
                    terms == seq![(1int, tables@)],
                    x@ == c,
                    f == (|b: int| value_at(terms, prefix.push(c as int) + bits(b, m))),
                    cong(sum@, sum_to(f, y as int)),
                decreases half - y,
            {
                let g = self.compute_g_value(x, y, tables);
                let next = sum.add(g);
                proof {
                    lemma_cong_add(sum@, sum_to(f, y as int), g@, f(y as int));
                    lemma_reduced(sum@ + g@);
                }
                sum = next;
                y += 1;
            }
            proof {
                lemma_fr_range(sum);
                crate::field::lemma_vals_push(msg@, sum);
            }
            msg.push(sum);
            c += 1;
        }
        msg
    }

    /// The product of the polynomials at the fixed variables, `c_prime` and the bits of `y_bits`.
    fn compute_g_value(&self, c_prime: Fr, y_bits: usize, tables: Ghost<Seq<Seq<int>>>) -> (r: Fr)
        requires
            self.in_round(tables@),
            self.current_round < self.num_var,
            y_bits < pow2((self.num_var - self.current_round - 1) as nat),
        ensures
            cong(
                r@,
                value_at(
                    seq![(1int, tables@)],
                    vals(self.challenges@).push(c_prime@) + bits(
                        y_bits as int,
                        (self.num_var - self.current_round - 1) as nat,
                    ),
                ),
            ),
    {
        let ghost prefix = vals(self.challenges@);
        let ghost m = (self.num_var - self.current_round - 1) as nat;
        proof {
            lemma_single_value(tables@, prefix.push(c_prime@) + bits(y_bits as int, m));
        }
        line_product(
            &self.a_arrays,
            self.num_poly,
            c_prime,
            y_bits,
            tables,
            Ghost(prefix),
            Ghost(m),
        )
    }

    /// Takes the verifier's challenge and fixes the next variable to it.
    fn receive_challenge(&mut self, challenge: Fr, tables: Ghost<Seq<Seq<int>>>)
        requires
            old(self).in_round(tables@),
            old(self).current_round < old(self).num_var,
        ensures
            final(self).in_round(tables@),
            final(self).num_var == old(self).num_var,
            final(self).num_poly == old(self).num_poly,
            final(self).current_round == old(self).current_round + 1,
            final(self).challenges@ == old(self).challenges@.push(challenge),
    {
        proof {
            crate::field::lemma_vals_push(self.challenges@, challenge);
        }
        self.bind_variable_to_challenge(challenge, tables);
        self.challenges.push(challenge);
        self.current_round = self.current_round + 1;
    }

    /// Fixes the next variable of every polynomial to `r_m`.
    fn bind_variable_to_challenge(&mut self, r_m: Fr, tables: Ghost<Seq<Seq<int>>>)
        requires
            old(self).in_round(tables@),
            old(self).current_round < old(self).num_var,
        ensures
            final(self).num_var == old(self).num_var,
            final(self).num_poly == old(self).num_poly,
            final(self).current_round == old(self).current_round,
            final(self).challenges == old(self).challenges,
            all_bound(
                tables@,
                final(self).a_arrays@,
                vals(old(self).challenges@).push(r_m@),
                (old(self).num_var - old(self).current_round - 1) as nat,
            ),
    {
        let ghost prefix = vals(self.challenges@);
        let remaining_vars = self.num_var - self.current_round - 1;
        let new_size = two_to(remaining_vars);
        bind_all(
            &mut self.a_arrays,
            new_size,
            r_m,
            tables,
            Ghost(prefix),
            Ghost(remaining_vars as nat),
        );
    }

    /// The product of the polynomials at the challenge point.
    fn final_evaluation(&self, tables: Ghost<Seq<Seq<int>>>) -> (r: Fr)
        requires
            self.in_round(tables@),
            self.current_round == self.num_var,
        ensures
            r@ == value_at(seq![(1int, tables@)], vals(self.challenges@)) % modulus(),
    {
        let ghost point = vals(self.challenges@);
        let r = final_product(&self.a_arrays, self.num_poly, tables, Ghost(point));
        proof {
            lemma_single_value(tables@, point);
            lemma_fr_range(r);
        }
        r
    }
}

/// The value of a single product without a scalar.
pub proof fn lemma_single_value(tables: Seq<Seq<int>>, r: Seq<int>)
    ensures
        value_at(seq![(1int, tables)], r) == product_to(
            |k: int| mle(tables[k], r),
            tables.len() as int,
        ),
{
    let terms = seq![(1int, tables)];
    let f = |j: int| summand_at(terms[j], r);
    assert(sum_to(f, 1) == sum_to(f, 0) + f(0));
    assert(terms[0].1 == tables);
    let p = product_to(|k: int| mle(tables[k], r), tables.len() as int);
    assert(1 * p == p) by (nonlinear_arith);
    assert(summand_at(terms[0], r) == 1 * p);
}

impl SumcheckProver for LinearSumcheckProver {
    type Instance = Vec<DenseMLPoly>;

    open spec fn vars(&self) -> nat {
        self.num_var as nat
    }

    open spec fn degree(&self) -> nat {
        self.num_poly as nat
    }

    open spec fn fresh(&self) -> bool {
        self.current_round == 0 && self.challenges@.len() == 0
    }

    open spec fn admits(&self, instances: &Vec<DenseMLPoly>) -> bool {
        &&& instances@.len() > 0
        &&& instances@.len() == self.num_poly
        &&& self.num_poly < u32::MAX
        &&& forall|k: int|
            0 <= k < instances@.len() ==> (#[trigger] instances@[k]).evaluations@.len() == pow2(
                self.num_var as nat,
            )
    }

    open spec fn terms(&self, instances: &Vec<DenseMLPoly>) -> Seq<(int, Seq<Seq<int>>)> {
        seq![(1int, tables_of(instances@))]
    }

    fn new(num_var: usize, num_polys: usize, transcript: &mut Transcript) -> (r: Self) {
        append_header(num_var, num_polys, transcript);
        LinearSumcheckProver {
            num_var,
            num_poly: num_polys,
            a_arrays: Vec::new(),
            current_round: 0,
            challenges: Vec::new(),
        }
    }

    fn prove(&mut self, instances: &Vec<DenseMLPoly>, transcript: &mut Transcript) -> (proof:
        SumcheckProof)
        ensures
            vals(final(self).challenges@) == rounds_challenges(
                old(transcript)@,
                messages(proof.round_messages@),
                old(self).num_var as int,
            ),
            final(self).num_var == old(self).num_var,
            final(self).num_poly == old(self).num_poly,
            final(self).current_round == old(self).num_var,
    {
        let ghost tables = tables_of(instances@);
        let ghost terms = seq![(1int, tables)];
        let ghost log = transcript@;
        let ghost n = self.num_var as int;
        let ghost d = self.num_poly as nat;
        self.a_arrays = copy_polys(instances);
        proof {
            lemma_shift_fits(instances@[0].evaluations.len() as nat, n as nat);
            assert(vals(self.challenges@) =~= Seq::<int>::empty());
            assert forall|k: int| 0 <= k < tables.len() implies bound(
                tables[k],
                (#[trigger] self.a_arrays@[k]).table(),
                Seq::<int>::empty(),
                n as nat,
            ) by {
                assert(instances@[k].evaluations@.len() == pow2(n as nat));
                lemma_bound_start(tables[k], self.a_arrays@[k].table(), n as nat);
            }
        }
        let mut round_messages: Vec<Vec<Fr>> = Vec::new();
        let mut round: usize = 0;
        while round < self.num_var
            invariant
                round <= self.num_var,
                n == self.num_var,
                d == self.num_poly,
                self.current_round == round,
                self.in_round(tables),
                terms == seq![(1int, tables)],
                round_messages@.len() == round,
                transcript@ == rounds_log(log, messages(round_messages@), round as int),
                vals(self.challenges@) == rounds_challenges(
                    log,
                    messages(round_messages@),
                    round as int,
                ),
                forall|i: int|
                    0 <= i < round ==> (#[trigger] messages(round_messages@)[i]) =~= Seq::new(
                        d + 1,
                        |c: int|
                            partial_sum(
                                terms,
                                vals(self.challenges@).take(i).push(c),
                                (n - i - 1) as nat,
                            ) % modulus(),
                    ),
            decreases self.num_var - round,
        {
            let ghost prefix = vals(self.challenges@);
            let ghost past = messages(round_messages@);
            let round_message = self.compute_round_message(Ghost(tables));
            append_message(&round_message, transcript);
            let challenge = transcript.challenge_scalar("challenge");
            let ghost msg = vals(round_message@);
            round_messages.push(round_message);
            self.receive_challenge(challenge, Ghost(tables));
            proof {
                let now = messages(round_messages@);
                assert(now =~= past.push(msg));
                lemma_rounds_log_prefix(log, past, now, round as int);
                lemma_rounds_challenges_prefix(log, past, now, round as int);
                crate::field::lemma_vals_push(old(self).challenges@, challenge);
                let ch = vals(self.challenges@);
                assert(ch =~= prefix.push(challenge@));
                assert(rounds_challenges(log, now, round + 1) =~= rounds_challenges(
                    log,
                    now,
                    round as int,
                ).push(challenge@));
                assert forall|i: int| 0 <= i < round + 1 implies (#[trigger] now[i]) =~= Seq::new(
                    d + 1,
                    |c: int|
                        partial_sum(terms, ch.take(i).push(c), (n - i - 1) as nat) % modulus(),
                ) by {
                    assert(ch.take(i) =~= prefix.take(i));
                    if i == round {
                        assert(prefix.take(i) =~= prefix);
                    } else {
                        assert(now[i] == past[i]);
                    }
                }
            }
            round += 1;
        }
        let final_eval = self.final_evaluation(Ghost(tables));
        SumcheckProof { final_eval, round_messages }
    }
}

} // verus!
