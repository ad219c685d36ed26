//! The sum-check prover for a weighted sum of products under a common factor.
use crate::field::{lemma_fr_range, lemma_vals_push, modulus, vals, CryptoField, Fr};
use crate::math::{
    cong, lemma_cong_add, lemma_cong_mul, lemma_pow2_small, lemma_pow2_step, lemma_product_ext,
    lemma_reduced, lemma_sum_ext, lemma_sum_scale, product_to, sum_to, two_to,
};
use crate::mle::{bits, mle};
use crate::poly::dense::{bind_low, interpolate, lemma_shift_fits, DenseMLPoly};
use crate::sumcheck::linear::{
    all_bound, bind_all, copy_polys, final_product, line_product, tables_of,
};
use crate::sumcheck::prover::{
    append_header, append_message, lemma_rounds_challenges_prefix, lemma_rounds_log_prefix,
    messages, SumcheckProof, SumcheckProver,
};
use crate::sumcheck::theory::{
    bound, lemma_bound_end, lemma_bound_line, lemma_bound_start, lemma_bound_step, partial_sum,
    rounds_challenges, rounds_log, summand_at, value_at,
};
use crate::transcript::Transcript;
use vstd::arithmetic::power2::pow2;
use vstd::prelude::*;

verus! {

/// Proves the sum over the boolean points of `eq(x) * (a_1 P_1(x) + a_2 P_2(x) + ...)`, where each
/// `P_j` is a product of `num_poly - 1` dense polynomials.
pub struct GeneralLinearSumcheckProver {
    /// The number of variables.
    pub num_var: usize,
    /// The number of polynomials in each product, the common factor counted.
    pub num_poly: usize,
    /// The common factor with the variables of the past rounds fixed.
    pub eq: DenseMLPoly,
    /// The scalars of the products.
    pub a_scalars: Vec<Fr>,
    /// The tables of the polynomials with the variables of the past rounds fixed.
    pub a_arrays: Vec<Vec<DenseMLPoly>>,
    /// The number of rounds run.
    pub current_round: usize,
    /// The challenges of the past rounds.
    pub challenges: Vec<Fr>,
}

/// The tables of a list of lists of polynomials.
pub open spec fn groups_of(groups: Seq<Vec<DenseMLPoly>>) -> Seq<Seq<Seq<int>>> {
    groups.map_values(|g: Vec<DenseMLPoly>| tables_of(g@))
}

/// The sum of products: product `j` has the scalar `scalars[j]` and multiplies the first `count`
/// tables of group `j` and the table `eq`.
pub open spec fn weighted_terms(
    scalars: Seq<int>,
    groups: Seq<Seq<Seq<int>>>,
    eq: Seq<int>,
    count: nat,
) -> Seq<(int, Seq<Seq<int>>)> {
    Seq::new(scalars.len(), |j: int| (scalars[j], groups[j].take(count as int).push(eq)))
}

/// The common factor can be taken out of the sum.
pub proof fn lemma_weighted_value(
    scalars: Seq<int>,
    groups: Seq<Seq<Seq<int>>>,
    eq: Seq<int>,
    count: nat,
    r: Seq<int>,
)
    requires
        groups.len() == scalars.len(),
        forall|j: int| 0 <= j < groups.len() ==> (#[trigger] groups[j]).len() >= count,
    ensures
        value_at(weighted_terms(scalars, groups, eq, count), r) == mle(eq, r) * sum_to(
            |j: int| scalars[j] * product_to(|k: int| mle(groups[j][k], r), count as int),
            scalars.len() as int,
        ),
{
    let terms = weighted_terms(scalars, groups, eq, count);
    let e = mle(eq, r);
    let g = |j: int| scalars[j] * product_to(|k: int| mle(groups[j][k], r), count as int);
    let f = |j: int| summand_at(terms[j], r);
    let scaled = |j: int| e * g(j);
    assert forall|j: int| 0 <= j < scalars.len() implies #[trigger] f(j) == scaled(j) by {
        let tables = terms[j].1;
        assert(groups[j].len() >= count);
        let h = |k: int| mle(tables[k], r);
        let h2 = |k: int| mle(groups[j][k], r);
        lemma_product_ext(h, h2, count as int);
        assert(tables.len() == count + 1);
        assert(product_to(h, count as int + 1) == product_to(h, count as int) * h(count as int));
        let p = product_to(h2, count as int);
        let a = scalars[j];
        assert(a * (p * e) == e * (a * p)) by (nonlinear_arith);
    }
    lemma_sum_ext(f, scaled, scalars.len() as int);
    lemma_sum_scale(e, g, scalars.len() as int);
}

impl GeneralLinearSumcheckProver {
    /// The prover stands before the next of its rounds on the given scalars and tables.
    spec fn in_round(
        &self,
        scalars: Seq<int>,
        groups: Seq<Seq<Seq<int>>>,
        eq: Seq<int>,
    ) -> bool {
        let m = (self.num_var - self.current_round) as nat;
        let prefix = vals(self.challenges@);
        &&& self.num_var < usize::BITS
        &&& 2 <= self.num_poly < u32::MAX
        &&& self.current_round <= self.num_var
        &&& self.challenges@.len() == self.current_round
        &&& vals(self.a_scalars@) == scalars
        &&& self.a_arrays@.len() == scalars.len()
        &&& groups.len() == scalars.len()
        &&& bound(eq, self.eq.table(), prefix, m)
        &&& forall|j: int|
            0 <= j < groups.len() ==> all_bound(
                groups[j],
                (#[trigger] self.a_arrays@[j])@,
                prefix,
                m,
            )
        &&& forall|j: int|
            0 <= j < groups.len() ==> (#[trigger] groups[j]).len() >= self.num_poly - 1
    }

    /// The message of the current round: the sum over the remaining variables, with the next one
    /// set to each of `0..=num_poly`.
    fn compute_round_message(
        &self,
        scalars: Ghost<Seq<int>>,
        groups: Ghost<Seq<Seq<Seq<int>>>>,
        eq: Ghost<Seq<int>>,
    ) -> (msg: Vec<Fr>)
        requires
            self.in_round(scalars@, groups@, eq@),
            self.current_round < self.num_var,
        ensures
            vals(msg@) =~= Seq::new(
                (self.num_poly + 1) as nat,
                |c: int|
                    partial_sum(
                        weighted_terms(scalars@, groups@, eq@, (self.num_poly - 1) as nat),
                        vals(self.challenges@).push(c),
                        (self.num_var - self.current_round - 1) as nat,
                    ) % modulus(),
            ),
    {
        let half = two_to(self.num_var - self.current_round - 1);
        let ghost prefix = vals(self.challenges@);
        let ghost m = (self.num_var - self.current_round - 1) as nat;
        let ghost terms = weighted_terms(scalars@, groups@, eq@, (self.num_poly - 1) as nat);
        let mut msg: Vec<Fr> = Vec::new();
        let mut c: usize = 0;
        while c <= self.num_poly
            invariant
                c <= self.num_poly + 1,
                self.num_poly < u32::MAX,
                self.in_round(scalars@, groups@, eq@),
                self.current_round < self.num_var,
                half == pow2(m),
                m == self.num_var - self.current_round - 1,
                prefix == vals(self.challenges@),
                terms == weighted_terms(scalars@, groups@, eq@, (self.num_poly - 1) as nat),
                vals(msg@) =~= Seq::new(
                    c as nat,
                    |c: int| partial_sum(terms, prefix.push(c), m) % modulus(),
                ),
            decreases self.num_poly + 1 - c,
        {
            let x = Fr::from_u64(c as u64);
            let ghost f = |b: int| value_at(terms, prefix.push(c as int) + bits(b, m));
            let mut sum = Fr::zero();
            let mut y: usize = 0;
            while y < half
                invariant
                    y <= half,
                    half == pow2(m),
                    m == self.num_var - self.current_round - 1,
                    self.in_round(scalars@, groups@, eq@),
                    prefix == vals(self.challenges@),
                    terms == weighted_terms(scalars@, groups@, eq@, (self.num_poly - 1) as nat),
                    x@ == c,
                    f == (|b: int| value_at(terms, prefix.push(c as int) + bits(b, m))),
                    cong(sum@, sum_to(f, y as int)),
                decreases half - y,
            {
                let g = self.compute_g_value(x, y, scalars, groups, eq);
                let next = sum.add(g);
                proof {
                    lemma_cong_add(sum@, sum_to(f, y as int), g@, f(y as int));
                    lemma_reduced(sum@ + g@);
                }
                sum = next;
                y += 1;
            }
            proof {
                lemma_fr_range(sum);
                lemma_vals_push(msg@, sum);
            }
            msg.push(sum);
            c += 1;
        }
        msg
    }

    /// The summed expression at the fixed variables, `c_prime` and the bits of `y_bits`.
    fn compute_g_value(
        &self,
        c_prime: Fr,
        y_bits: usize,
        scalars: Ghost<Seq<int>>,
        groups: Ghost<Seq<Seq<Seq<int>>>>,
        eq: Ghost<Seq<int>>,
    ) -> (r: Fr)
        requires
            self.in_round(scalars@, groups@, eq@),
            self.current_round < self.num_var,
            y_bits < pow2((self.num_var - self.current_round - 1) as nat),
        ensures
            cong(
                r@,
                value_at(
                    weighted_terms(scalars@, groups@, eq@, (self.num_poly - 1) as nat),
                    vals(self.challenges@).push(c_prime@) + bits(
                        y_bits as int,
                        (self.num_var - self.current_round - 1) as nat,
                    ),
                ),
            ),
    {
        let ghost prefix = vals(self.challenges@);
        let ghost m = (self.num_var - self.current_round - 1) as nat;
        let ghost point = prefix.push(c_prime@) + bits(y_bits as int, m);
        let ghost count = self.num_poly - 1;
        proof {
            lemma_pow2_step(m);
            assert(self.eq.evaluations.len() == self.eq.table().len());
        }
        let eq_val_0 = self.eq.evaluations[2 * y_bits];
        let eq_val_1 = self.eq.evaluations[2 * y_bits + 1];
        let eq_val = interpolate(eq_val_0, eq_val_1, c_prime);
        proof {
            lemma_bound_line(eq@, self.eq.table(), prefix, m, c_prime@, y_bits as int);
            lemma_reduced(eq_val_0@ + c_prime@ * (eq_val_1@ - eq_val_0@));
        }
        let ghost f = |j: int|
            scalars@[j] * product_to(|k: int| mle(groups@[j][k], point), count);
        let mut sum = Fr::zero();
        let mut j: usize = 0;
        while j < self.a_arrays.len()
            invariant
                j <= self.a_arrays@.len(),
                self.in_round(scalars@, groups@, eq@),
                self.current_round < self.num_var,
                y_bits < pow2(m),
                m == self.num_var - self.current_round - 1,
                prefix == vals(self.challenges@),
                point == prefix.push(c_prime@) + bits(y_bits as int, m),
                count == self.num_poly - 1,
                f == (|j: int|
                    scalars@[j] * product_to(|k: int| mle(groups@[j][k], point), count)),
                cong(sum@, sum_to(f, j as int)),
            decreases self.a_arrays.len() - j,
        {
            assert(all_bound(groups@[j as int], self.a_arrays@[j as int]@, prefix, m + 1));
            let product = line_product(
                &self.a_arrays[j],
                self.num_poly - 1,
                c_prime,
                y_bits,
                Ghost(groups@[j as int]),
                Ghost(prefix),
                Ghost(m),
            );
            let scalar = self.a_scalars[j];
            let term = product.mul(scalar);
            let next = sum.add(term);
            proof {
                let p = product_to(|k: int| mle(groups@[j as int][k], point), count);
                assert(scalar@ == scalars@[j as int]);
                lemma_cong_mul(product@, p, scalar@, scalar@);
                lemma_reduced(product@ * scalar@);
                assert(p * scalar@ == scalar@ * p) by (nonlinear_arith);
                lemma_cong_add(sum@, sum_to(f, j as int), term@, f(j as int));
                lemma_reduced(sum@ + term@);
            }
            sum = next;
            j += 1;
        }
        let r = sum.mul(eq_val);
        proof {
            let total = sum_to(f, scalars@.len() as int);
            let e = mle(eq@, point);
            lemma_weighted_value(scalars@, groups@, eq@, count as nat, point);
            lemma_cong_mul(sum@, total, eq_val@, e);
            lemma_reduced(sum@ * eq_val@);
            assert(total * e == e * total) by (nonlinear_arith);
        }
        r
    }

    /// Takes the verifier's challenge and fixes the next variable to it.
    fn receive_challenge(
        &mut self,
        challenge: Fr,
        scalars: Ghost<Seq<int>>,
        groups: Ghost<Seq<Seq<Seq<int>>>>,
        eq: Ghost<Seq<int>>,
    )
        requires
            old(self).in_round(scalars@, groups@, eq@),
            old(self).current_round < old(self).num_var,
        ensures
            final(self).in_round(scalars@, groups@, eq@),
            final(self).num_var == old(self).num_var,
            final(self).num_poly == old(self).num_poly,
            final(self).current_round == old(self).current_round + 1,
            final(self).challenges@ == old(self).challenges@.push(challenge),
    {
        proof {
            lemma_vals_push(self.challenges@, challenge);
        }
        self.bind_variable_to_challenge(challenge, scalars, groups, eq);
        self.challenges.push(challenge);
        self.current_round = self.current_round + 1;
    }

    /// Fixes the next variable of every polynomial and of the common factor to `r_m`.
    fn bind_variable_to_challenge(
        &mut self,
        r_m: Fr,
        scalars: Ghost<Seq<int>>,
        groups: Ghost<Seq<Seq<Seq<int>>>>,
        eq: Ghost<Seq<int>>,
    )
        requires
            old(self).in_round(scalars@, groups@, eq@),
            old(self).current_round < old(self).num_var,
        ensures
            final(self).num_var == old(self).num_var,
            final(self).num_poly == old(self).num_poly,
            final(self).current_round == old(self).current_round,
            final(self).challenges == old(self).challenges,
            final(self).a_scalars == old(self).a_scalars,
            final(self).a_arrays@.len() == old(self).a_arrays@.len(),
            bound(
                eq@,
                final(self).eq.table(),
                vals(old(self).challenges@).push(r_m@),
                (old(self).num_var - old(self).current_round - 1) as nat,
            ),
            forall|j: int|
                0 <= j < groups@.len() ==> all_bound(
                    groups@[j],
                    (#[trigger] final(self).a_arrays@[j])@,
                    vals(old(self).challenges@).push(r_m@),
                    (old(self).num_var - old(self).current_round - 1) as nat,
                ),
    {
        let ghost prefix = vals(self.challenges@);
        let remaining_vars = self.num_var - self.current_round - 1;
        let ghost m = remaining_vars as nat;
        let new_size = two_to(remaining_vars);
        let ghost before = self.a_arrays@;
        proof {
            lemma_pow2_step(m);
        }
        let mut j: usize = 0;
        while j < self.a_arrays.len()
            invariant
                j <= self.a_arrays@.len(),
                self.a_arrays@.len() == before.len(),
                self.num_var == old(self).num_var,
                self.num_poly == old(self).num_poly,
                self.current_round == old(self).current_round,
                self.challenges == old(self).challenges,
                self.a_scalars == old(self).a_scalars,
                self.eq == old(self).eq,
                before.len() == groups@.len(),
                new_size == pow2(m),
                forall|i: int|
                    0 <= i < before.len() ==> all_bound(
                        groups@[i],
                        (#[trigger] before[i])@,
                        prefix,
                        m + 1,
                    ),
                forall|i: int|
                    0 <= i < j ==> all_bound(
                        groups@[i],
                        (#[trigger] self.a_arrays@[i])@,
                        prefix.push(r_m@),
                        m,
                    ),
                forall|i: int|
                    j <= i < before.len() ==> #[trigger] self.a_arrays@[i] == before[i],
            decreases self.a_arrays.len() - j,
        {
            assert(all_bound(groups@[j as int], before[j as int]@, prefix, m + 1));
            let mut group = copy_polys(&self.a_arrays[j]);
            proof {
                assert(all_bound(groups@[j as int], group@, prefix, m + 1)) by {
                    assert forall|k: int| 0 <= k < group@.len() implies bound(
                        groups@[j as int][k],
                        (#[trigger] group@[k]).table(),
                        prefix,
                        m + 1,
                    ) by {
                        assert(bound(
                            groups@[j as int][k],
                            before[j as int]@[k].table(),
                            prefix,
                            m + 1,
                        ));
                        assert(group@[k].evaluations@ == before[j as int]@[k].evaluations@);
                    }
                }
            }
            bind_all(
                &mut group,
                new_size,
                r_m,
                Ghost(groups@[j as int]),
                Ghost(prefix),
                Ghost(m),
            );
            self.a_arrays.set(j, group);
            j += 1;
        }
        let mut evaluations = Fr::copy_of(self.eq.evaluations.as_slice());
        bind_low(&mut evaluations, new_size, r_m);
        proof {
            lemma_bound_step(eq@, self.eq.table(), vals(evaluations@), prefix, m, r_m@);
        }
        let n = self.eq.n;
        self.eq = DenseMLPoly { n, evaluations };
    }

    /// The summed expression at the challenge point.
    fn final_evaluation(
        &self,
        scalars: Ghost<Seq<int>>,
        groups: Ghost<Seq<Seq<Seq<int>>>>,
        eq: Ghost<Seq<int>>,
    ) -> (r: Fr)
        requires
            self.in_round(scalars@, groups@, eq@),
            self.current_round == self.num_var,
        ensures
            r@ == value_at(
                weighted_terms(scalars@, groups@, eq@, (self.num_poly - 1) as nat),
                vals(self.challenges@),
            ) % modulus(),
    {
        let ghost point = vals(self.challenges@);
        let ghost count = self.num_poly - 1;
        let ghost f = |j: int|
            scalars@[j] * product_to(|k: int| mle(groups@[j][k], point), count);
        let mut sum = Fr::zero();
        let mut j: usize = 0;
        while j < self.a_arrays.len()
            invariant
                j <= self.a_arrays@.len(),
                self.in_round(scalars@, groups@, eq@),
                self.current_round == self.num_var,
                point == vals(self.challenges@),
                count == self.num_poly - 1,
                f == (|j: int|
                    scalars@[j] * product_to(|k: int| mle(groups@[j][k], point), count)),
                cong(sum@, sum_to(f, j as int)),
            decreases self.a_arrays.len() - j,
        {
            assert(all_bound(groups@[j as int], self.a_arrays@[j as int]@, point, 0));
            let product = final_product(
                &self.a_arrays[j],
                self.num_poly - 1,
                Ghost(groups@[j as int]),
                Ghost(point),
            );
            let scalar = self.a_scalars[j];
            let term = product.mul(scalar);
            let next = sum.add(term);
            proof {
                let p = product_to(|k: int| mle(groups@[j as int][k], point), count);
                assert(scalar@ == scalars@[j as int]);
                lemma_cong_mul(product@, p, scalar@, scalar@);
                lemma_reduced(product@ * scalar@);
                assert(p * scalar@ == scalar@ * p) by (nonlinear_arith);
                lemma_cong_add(sum@, sum_to(f, j as int), term@, f(j as int));
                lemma_reduced(sum@ + term@);
            }
            sum = next;
            j += 1;
        }
        proof {
            lemma_pow2_small();
            lemma_bound_end(eq@, self.eq.table(), point);
        }
        let eq_val = self.eq.evaluations[0];
        let r = sum.mul(eq_val);
        proof {
            let total = sum_to(f, scalars@.len() as int);
            let e = mle(eq@, point);
            lemma_weighted_value(scalars@, groups@, eq@, count as nat, point);
            lemma_cong_mul(sum@, total, eq_val@, e);
            lemma_reduced(sum@ * eq_val@);
            assert(total * e == e * total) by (nonlinear_arith);
        }
        r
    }
}

impl SumcheckProver for GeneralLinearSumcheckProver {
    type Instance = (Vec<Fr>, Vec<Vec<DenseMLPoly>>, DenseMLPoly);

    open spec fn vars(&self) -> nat {
        self.num_var as nat
    }

    open spec fn degree(&self) -> nat {
        self.num_poly as nat
    }

    open spec fn fresh(&self) -> bool {
        self.current_round == 0 && self.challenges@.len() == 0
    }

    open spec fn admits(&self, instances: &(Vec<Fr>, Vec<Vec<DenseMLPoly>>, DenseMLPoly)) -> bool {
        let size = pow2(self.num_var as nat);
        &&& instances.0@.len() > 0
        &&& instances.0@.len() == instances.1@.len()
        &&& 2 <= self.num_poly < u32::MAX
        &&& instances.1@[0]@.len() == self.num_poly - 1
        &&& instances.2.evaluations@.len() >= size
        &&& forall|j: int|
            0 <= j < instances.1@.len() ==> (#[trigger] instances.1@[j])@.len() >= self.num_poly
                - 1
        &&& forall|j: int, k: int|
            0 <= j < instances.1@.len() && 0 <= k < instances.1@[j]@.len() ==> (
            #[trigger] instances.1@[j]@[k]).evaluations@.len() == size
    }

    open spec fn terms(
        &self,
        instances: &(Vec<Fr>, Vec<Vec<DenseMLPoly>>, DenseMLPoly),
    ) -> Seq<(int, Seq<Seq<int>>)> {
        weighted_terms(
            vals(instances.0@),
            groups_of(instances.1@),
            instances.2.table().take(pow2(self.num_var as nat) as int),
            (self.num_poly - 1) as nat,
        )
    }

    fn new(num_var: usize, num_polys: usize, transcript: &mut Transcript) -> (r: Self) {
        append_header(num_var, num_polys, transcript);
        GeneralLinearSumcheckProver {
            num_var,
            num_poly: num_polys,
            eq: DenseMLPoly { n: 0, evaluations: Fr::repeat(Fr::one(), 1) },
            a_scalars: Vec::new(),
            a_arrays: Vec::new(),
            current_round: 0,
            challenges: Vec::new(),
        }
    }

    fn prove(
        &mut self,
        instances: &(Vec<Fr>, Vec<Vec<DenseMLPoly>>, DenseMLPoly),
        transcript: &mut Transcript,
    ) -> (proof: SumcheckProof)
        ensures
            vals(final(self).challenges@) == rounds_challenges(
                old(transcript)@,
                messages(proof.round_messages@),
                old(self).num_var as int,
            ),
            final(self).num_var == old(self).num_var,
            final(self).num_poly == old(self).num_poly,
            final(self).current_round == old(self).num_var,
    {
        let ghost scalars = vals(instances.0@);
        let ghost groups = groups_of(instances.1@);
        let ghost n = self.num_var as int;
        let ghost eq = instances.2.table().take(pow2(n as nat) as int);
        let ghost terms = weighted_terms(scalars, groups, eq, (self.num_poly - 1) as nat);
        let ghost log = transcript@;
        let ghost d = self.num_poly as nat;
        self.a_scalars = Fr::copy_of(instances.0.as_slice());
        self.eq = instances.2.clone();
        let mut arrays: Vec<Vec<DenseMLPoly>> = Vec::new();
        let mut j: usize = 0;
        while j < instances.1.len()
            invariant
                j <= instances.1@.len(),
                arrays@.len() == j,
                forall|i: int|
                    0 <= i < j ==> (#[trigger] arrays@[i])@.len() == instances.1@[i]@.len(),
                forall|i: int, k: int|
                    0 <= i < j && 0 <= k < instances.1@[i]@.len() ==> (
                    #[trigger] arrays@[i]@[k]).evaluations@ == instances.1@[i]@[k].evaluations@,
            decreases instances.1.len() - j,
        {
            arrays.push(copy_polys(&instances.1[j]));
            j += 1;
        }
        self.a_arrays = arrays;
        proof {
            assert(instances.1@[0]@[0].evaluations@.len() == pow2(n as nat));
            lemma_shift_fits(instances.1@[0]@[0].evaluations.len() as nat, n as nat);
            assert(vals(self.challenges@) =~= Seq::<int>::empty());
            lemma_bound_start(eq, self.eq.table(), n as nat);
            assert forall|j: int| 0 <= j < groups.len() implies (#[trigger] groups[j]).len() >= d
                - 1 by {
                assert(instances.1@[j]@.len() >= d - 1);
            }
            assert forall|j: int| 0 <= j < groups.len() implies all_bound(
                groups[j],
                (#[trigger] self.a_arrays@[j])@,
                Seq::<int>::empty(),
                n as nat,
            ) by {
                assert(self.a_arrays@[j]@.len() == instances.1@[j]@.len());
                assert forall|k: int| 0 <= k < groups[j].len() implies bound(
                    groups[j][k],
                    (#[trigger] self.a_arrays@[j]@[k]).table(),
                    Seq::<int>::empty(),
                    n as nat,
                ) by {
                    assert(instances.1@[j]@[k].evaluations@.len() == pow2(n as nat));
                    assert(groups[j][k] == instances.1@[j]@[k].table());
                    lemma_bound_start(groups[j][k], self.a_arrays@[j]@[k].table(), n as nat);
                }
            }
        }
        let mut round_messages: Vec<Vec<Fr>> = Vec::new();
        let mut round: usize = 0;
        while round < self.num_var
            invariant
                round <= self.num_var,
                n == self.num_var,
                d == self.num_poly,
                self.current_round == round,
                self.in_round(scalars, groups, eq),
                terms == weighted_terms(scalars, groups, eq, (d - 1) as nat),
                round_messages@.len() == round,
                transcript@ == rounds_log(log, messages(round_messages@), round as int),
                vals(self.challenges@) == rounds_challenges(
                    log,
                    messages(round_messages@),
                    round as int,
                ),
                forall|i: int|
                    0 <= i < round ==> (#[trigger] messages(round_messages@)[i]) =~= Seq::new(
                        d + 1,
                        |c: int|
                            partial_sum(
                                terms,
                                vals(self.challenges@).take(i).push(c),
                                (n - i - 1) as nat,
                            ) % modulus(),
                    ),
            decreases self.num_var - round,
        {
            let ghost prefix = vals(self.challenges@);
            let ghost past = messages(round_messages@);
            let round_message = self.compute_round_message(
                Ghost(scalars),
                Ghost(groups),
                Ghost(eq),
            );
            append_message(&round_message, transcript);
            let challenge = transcript.challenge_scalar("challenge");
            let ghost msg = vals(round_message@);
            round_messages.push(round_message);
            proof {
                lemma_vals_push(self.challenges@, challenge);
            }
            self.receive_challenge(challenge, Ghost(scalars), Ghost(groups), Ghost(eq));
            proof {
                let now = messages(round_messages@);
                assert(now =~= past.push(msg));
                lemma_rounds_log_prefix(log, past, now, round as int);
                lemma_rounds_challenges_prefix(log, past, now, round as int);
                let ch = vals(self.challenges@);
                assert(rounds_challenges(log, now, round + 1) =~= rounds_challenges(
                    log,
                    now,
                    round as int,
                ).push(challenge@));
                assert forall|i: int| 0 <= i < round + 1 implies (#[trigger] now[i]) =~= Seq::new(
                    d + 1,
                    |c: int|
                        partial_sum(terms, ch.take(i).push(c), (n - i - 1) as nat) % modulus(),
                ) by {
                    assert(ch.take(i) =~= prefix.take(i));
                    if i == round {
                        assert(prefix.take(i) =~= prefix);
                    } else {
                        assert(now[i] == past[i]);
                    }
                }
            }
            round += 1;
        }
        let final_eval = self.final_evaluation(Ghost(scalars), Ghost(groups), Ghost(eq));
        SumcheckProof { final_eval, round_messages }
    }
}

} // verus!
