//! Many claims about one tensor reduced to one.
use crate::arith::{calc_pow, get_n, num_vars, power};
use crate::basicblock::exp::copy_messages;
use crate::basicblock::BasicBlock;
use crate::field::{lemma_fr_range, lemma_modulus_bounds, modulus, vals, CryptoField, Fr};
use crate::math::{
    cong, lemma_cong_add, lemma_cong_mul, lemma_cong_small, lemma_cong_sub, lemma_reduced,
    lemma_sum_cong, lemma_sum_ext, lemma_sum_scale, lemma_sum_swap, product_to, sum_to,
};
use crate::mle::{bits, eq_at, eq_weight, lemma_eq_at, lemma_mle_bits, lemma_mle_cong, mle};
use crate::poly::degree::invertible;
use crate::poly::dense::{evaluate_lagrange_basis, DenseMLPoly};
use crate::sumcheck::linear::{tables_of, LinearSumcheckProver};
use crate::sumcheck::prover::{header, messages, SumcheckProof, SumcheckProver};
use crate::sumcheck::theory::{
    fits, honest, lemma_first_message, lemma_last_sum, partial_sum, rounds_challenges, rounds_log,
    summand_at, value_at,
};
use crate::sumcheck::verify::{accepted, round_ok, running_sum, SumcheckVerifier};
use crate::transcript::{challenge, drawn, Transcript};
use crate::witness::{holds, Claim, Poly, Witness};
use vstd::arithmetic::power2::pow2;
use vstd::prelude::*;

verus! {

/// Combines claims about one polynomial, at different points, into one claim.
#[derive(Clone, Copy, Debug)]
pub struct Reducer;

/// The points of a list of claims.
pub open spec fn points_of(claims: Seq<&Claim>) -> Seq<Seq<int>> {
    claims.map_values(|c: &Claim| vals(c.point@))
}

/// The weights of the points, combined with the powers of `alpha`.
pub open spec fn combined_weight(points: Seq<Seq<int>>, alpha: int, b: int) -> int {
    sum_to(|i: int| power(alpha, i as nat) * eq_weight(points[i], b), points.len() as int)
}

/// The table of the combined weights.
pub open spec fn combined_table(points: Seq<Seq<int>>, alpha: int, n: nat) -> Seq<int> {
    Seq::new(pow2(n), |b: int| combined_weight(points, alpha, b) % modulus())
}

/// The sum that the reduction is about: the polynomial times the combined weights.
pub open spec fn reduction_terms(
    table: Seq<int>,
    points: Seq<Seq<int>>,
    alpha: int,
    n: nat,
) -> Seq<(int, Seq<Seq<int>>)> {
    seq![(1int, seq![table, combined_table(points, alpha, n)])]
}

/// The claimed values, combined with the powers of `alpha`.
pub open spec fn combined_value(claims: Seq<&Claim>, alpha: int) -> int {
    sum_to(|i: int| power(alpha, i as nat) * claims[i].eval@, claims.len() as int)
}

/// The agreements of the points with another point, combined with the powers of `alpha`.
pub open spec fn combined_eq(points: Seq<Seq<int>>, alpha: int, at: Seq<int>) -> int {
    sum_to(|i: int| power(alpha, i as nat) * eq_at(at, points[i]), points.len() as int)
}

/// Every claim has the value of the table at its point, and the point has a coordinate for every
/// variable.
pub open spec fn all_hold(claims: Seq<&Claim>, table: Seq<int>, n: nat) -> bool {
    forall|i: int|
        0 <= i < claims.len() ==> (#[trigger] claims[i]).point@.len() == n && claims[i].eval@ == mle(
            table,
            vals(claims[i].point@),
        ) % modulus()
}

/// A sum over the combined weights is the combination of the sums over the weights.
proof fn lemma_combined_sum(
    points: Seq<Seq<int>>,
    alpha: int,
    g: spec_fn(int) -> int,
    m: int,
)
    ensures
        sum_to(|b: int| combined_weight(points, alpha, b) * g(b), m) == sum_to(
            |i: int| power(alpha, i as nat) * sum_to(|b: int| eq_weight(points[i], b) * g(b), m),
            points.len() as int,
        ),
{
    let k = points.len() as int;
    let term = |b: int, i: int| (power(alpha, i as nat) * eq_weight(points[i], b)) * g(b);
    let left = |b: int| combined_weight(points, alpha, b) * g(b);
    let rows = |b: int| sum_to(|i: int| term(b, i), k);
    assert forall|b: int| 0 <= b < m implies #[trigger] left(b) == rows(b) by {
        let w = |i: int| power(alpha, i as nat) * eq_weight(points[i], b);
        lemma_sum_scale(g(b), w, k);
        let scaled = |i: int| g(b) * w(i);
        let row = |i: int| term(b, i);
        assert forall|i: int| 0 <= i < k implies #[trigger] scaled(i) == row(i) by {
            let (x, y) = (g(b), w(i));
            assert(x * y == y * x) by (nonlinear_arith);
        }
        lemma_sum_ext(scaled, row, k);
        let (x, y) = (g(b), sum_to(w, k));
        assert(x * y == y * x) by (nonlinear_arith);
    }
    lemma_sum_ext(left, rows, m);
    lemma_sum_swap(term, m, k);
    let cols = |i: int| sum_to(|b: int| term(b, i), m);
    let right = |i: int|
        power(alpha, i as nat) * sum_to(|b: int| eq_weight(points[i], b) * g(b), m);
    assert forall|i: int| 0 <= i < k implies #[trigger] cols(i) == right(i) by {
        let p = power(alpha, i as nat);
        let w = |b: int| eq_weight(points[i], b) * g(b);
        lemma_sum_scale(p, w, m);
        let scaled = |b: int| p * w(b);
        let col = |b: int| term(b, i);
        assert forall|b: int| 0 <= b < m implies #[trigger] scaled(b) == col(b) by {
            let (e, x) = (eq_weight(points[i], b), g(b));
            assert(p * (e * x) == (p * e) * x) by (nonlinear_arith);
        }
        lemma_sum_ext(scaled, col, m);
    }
    lemma_sum_ext(cols, right, k);
}

/// The value of a sum of one summand that multiplies two tables.
pub proof fn lemma_two_tables(a: Seq<int>, b: Seq<int>, r: Seq<int>)
    ensures
        value_at(seq![(1int, seq![a, b])], r) == mle(a, r) * mle(b, r),
{
    let terms = seq![(1int, seq![a, b])];
    let f = |k: int| mle(terms[0].1[k], r);
    let s = |j: int| summand_at(terms[j], r);
    assert(sum_to(s, 1) == sum_to(s, 0) + s(0));
    assert(product_to(f, 2) == product_to(f, 1) * f(1));
    assert(product_to(f, 1) == product_to(f, 0) * f(0));
    let (x, y) = (f(0), f(1));
    assert(1 * ((1 * x) * y) == x * y) by (nonlinear_arith);
}

/// The value of the sum's summand at a point.
proof fn lemma_summand(table: Seq<int>, points: Seq<Seq<int>>, alpha: int, n: nat, r: Seq<int>)
    ensures
        value_at(reduction_terms(table, points, alpha, n), r) == mle(table, r) * mle(
            combined_table(points, alpha, n),
            r,
        ),
{
    lemma_two_tables(table, combined_table(points, alpha, n), r);
}

/// The sum over all boolean points is the combination of the claimed values.
pub proof fn lemma_reduction_sum(
    table: Seq<int>,
    claims: Seq<&Claim>,
    alpha: int,
    n: nat,
)
    requires
        all_hold(claims, table, n),
    ensures
        cong(
            partial_sum(
                reduction_terms(table, points_of(claims), alpha, n),
                Seq::<int>::empty(),
                n,
            ),
            combined_value(claims, alpha),
        ),
{
    let points = points_of(claims);
    let terms = reduction_terms(table, points, alpha, n);
    let weights = combined_table(points, alpha, n);
    let m = pow2(n) as int;
    let none = Seq::<int>::empty();
    let f = |b: int| value_at(terms, none + bits(b, n));
    let g = |b: int| table[b];
    let raw = |b: int| combined_weight(points, alpha, b) * g(b);
    assert forall|b: int| 0 <= b < m implies cong(#[trigger] f(b), raw(b)) by {
        assert(none + bits(b, n) =~= bits(b, n));
        lemma_summand(table, points, alpha, n, bits(b, n));
        lemma_mle_bits(table, b, n);
        lemma_mle_bits(weights, b, n);
        let w = combined_weight(points, alpha, b);
        lemma_reduced(w);
        lemma_cong_mul(table[b], table[b], weights[b], w);
        let t = table[b];
        assert(t * w == w * t) by (nonlinear_arith);
    }
    lemma_sum_cong(f, raw, m);
    lemma_combined_sum(points, alpha, g, m);
    let k = claims.len() as int;
    let right = |i: int|
        power(alpha, i as nat) * sum_to(|b: int| eq_weight(points[i], b) * g(b), m);
    let goal = |i: int| power(alpha, i as nat) * claims[i].eval@;
    assert forall|i: int| 0 <= i < k implies cong(#[trigger] right(i), goal(i)) by {
        assert(claims[i].point@.len() == n);
        let r = points[i];
        let p = power(alpha, i as nat);
        let a = |b: int| eq_weight(r, b) * g(b);
        let c = |b: int| table[b] * eq_weight(r, b);
        assert forall|b: int| 0 <= b < m implies #[trigger] a(b) == c(b) by {
            let (x, y) = (eq_weight(r, b), table[b]);
            assert(x * y == y * x) by (nonlinear_arith);
        }
        lemma_sum_ext(a, c, m);
        lemma_reduced(mle(table, r));
        lemma_cong_mul(p, p, mle(table, r), claims[i].eval@);
        lemma_sum_ext(|b: int| eq_weight(points[i], b) * g(b), a, m);
    }
    lemma_sum_cong(right, goal, k);
}

/// The summed expression at a point is the polynomial's value times the combined agreements.
pub proof fn lemma_reduction_value(
    table: Seq<int>,
    points: Seq<Seq<int>>,
    alpha: int,
    n: nat,
    at: Seq<int>,
)
    requires
        at.len() == n,
        forall|i: int| 0 <= i < points.len() ==> (#[trigger] points[i]).len() == n,
    ensures
        cong(
            value_at(reduction_terms(table, points, alpha, n), at),
            mle(table, at) * combined_eq(points, alpha, at),
        ),
{
    let weights = combined_table(points, alpha, n);
    let m = pow2(n) as int;
    lemma_summand(table, points, alpha, n, at);
    let raw_table = Seq::new(pow2(n), |b: int| combined_weight(points, alpha, b));
    assert forall|b: int| 0 <= b < m implies cong(#[trigger] weights[b], raw_table[b]) by {
        lemma_reduced(raw_table[b]);
    }
    lemma_mle_cong(weights, raw_table, at);
    let g = |b: int| eq_weight(at, b);
    lemma_combined_sum(points, alpha, g, m);
    let raw = |b: int| combined_weight(points, alpha, b) * g(b);
    let held = |b: int| raw_table[b] * eq_weight(at, b);
    lemma_sum_ext(held, raw, m);
    let k = points.len() as int;
    let right = |i: int|
        power(alpha, i as nat) * sum_to(|b: int| eq_weight(points[i], b) * g(b), m);
    let goal = |i: int| power(alpha, i as nat) * eq_at(at, points[i]);
    assert forall|i: int| 0 <= i < k implies #[trigger] right(i) == goal(i) by {
        let a = |b: int| eq_weight(points[i], b) * g(b);
        let c = |b: int| eq_weight(at, b) * eq_weight(points[i], b);
        assert forall|b: int| 0 <= b < m implies #[trigger] a(b) == c(b) by {
            let (x, y) = (eq_weight(points[i], b), eq_weight(at, b));
            assert(x * y == y * x) by (nonlinear_arith);
        }
        lemma_sum_ext(a, c, m);
        lemma_eq_at(at, points[i]);
        lemma_sum_ext(|b: int| eq_weight(points[i], b) * g(b), a, m);
    }
    lemma_sum_ext(right, goal, k);
    lemma_cong_mul(
        mle(table, at),
        mle(table, at),
        mle(weights, at),
        combined_eq(points, alpha, at),
    );
}

/// The table of the combined weights of the points of some claims.
fn weight_poly(out_claims: &[&Claim], alphas: &Vec<Fr>, n: usize, alpha: Ghost<int>) -> (r:
    DenseMLPoly)
    requires
        out_claims@.len() >= 1,
        n < usize::BITS,
        alphas@.len() == out_claims@.len(),
        forall|i: int|
            0 <= i < alphas@.len() ==> (#[trigger] alphas@[i])@ == power(alpha@, i as nat)
                % modulus(),
        forall|i: int| 0 <= i < out_claims@.len() ==> (#[trigger] out_claims@[i]).point@.len() == n,
    ensures
        r.n == n,
        r.table() =~= combined_table(points_of(out_claims@), alpha@, n as nat),
{
    let ghost points = points_of(out_claims@);
    let ghost m = pow2(n as nat) as int;
    let mut acc = DenseMLPoly::new(
        n,
        evaluate_lagrange_basis(out_claims[0].point.as_slice()),
    );
    proof {
        assert(out_claims@[0].point@.len() == n);
        assert(points[0] == vals(out_claims@[0].point@));
        let first = points.take(1);
        assert forall|b: int| 0 <= b < m implies (#[trigger] acc.evaluations@[b])@
            == combined_weight(first, alpha@, b) % modulus() by {
            let w = |i: int| power(alpha@, i as nat) * eq_weight(first[i], b);
            assert(sum_to(w, 1) == sum_to(w, 0) + w(0));
            let e = eq_weight(points[0], b);
            assert(1 * e == e) by (nonlinear_arith);
        }
    }
    let mut i: usize = 1;
    while i < out_claims.len()
        invariant
            1 <= i <= out_claims@.len(),
            n < usize::BITS,
            m == pow2(n as nat),
            points == points_of(out_claims@),
            alphas@.len() == out_claims@.len(),
            forall|i: int|
                0 <= i < alphas@.len() ==> (#[trigger] alphas@[i])@ == power(alpha@, i as nat)
                    % modulus(),
            forall|i: int|
                0 <= i < out_claims@.len() ==> (#[trigger] out_claims@[i]).point@.len() == n,
            acc.n == n,
            acc.evaluations@.len() == m,
            forall|b: int|
                0 <= b < m ==> (#[trigger] acc.evaluations@[b])@ == combined_weight(
                    points.take(i as int),
                    alpha@,
                    b,
                ) % modulus(),
        decreases out_claims.len() - i,
    {
        assert(out_claims@[i as int].point@.len() == n);
        let basis = DenseMLPoly::new(
            n,
            evaluate_lagrange_basis(out_claims[i].point.as_slice()),
        );
        let scaled = basis.mul_by_scalar(alphas[i]);
        let ghost before = acc;
        acc = acc.add(&scaled);
        proof {
            let longer = points.take(i + 1);
            let shorter = points.take(i as int);
            assert(scaled.table().len() == scaled.evaluations@.len());
            assert(acc.table().len() == acc.evaluations@.len());
            assert forall|b: int| 0 <= b < m implies (#[trigger] acc.evaluations@[b])@
                == combined_weight(longer, alpha@, b) % modulus() by {
                assert(acc.evaluations@[b]@ == acc.table()[b]);
                assert(scaled.evaluations@[b]@ == scaled.table()[b]);
                let p = power(alpha@, i as nat);
                let e = eq_weight(points[i as int], b);
                let w = |j: int| power(alpha@, j as nat) * eq_weight(longer[j], b);
                let v = |j: int| power(alpha@, j as nat) * eq_weight(shorter[j], b);
                lemma_sum_ext(w, v, i as int);
                assert(sum_to(w, i + 1) == sum_to(w, i as int) + w(i as int));
                lemma_reduced(combined_weight(shorter, alpha@, b));
                lemma_reduced(e);
                lemma_reduced(p);
                let (be, al) = (basis.evaluations@[b]@, alphas@[i as int]@);
                lemma_cong_mul(be, e, al, p);
                lemma_reduced(be * al);
                assert(e * p == p * e) by (nonlinear_arith);
                lemma_cong_add(
                    before.evaluations@[b]@,
                    combined_weight(shorter, alpha@, b),
                    scaled.evaluations@[b]@,
                    p * e,
                );
            }
        }
        i += 1;
    }
    assert(points.take(i as int) =~= points);
    acc
}

impl BasicBlock for Reducer {
    open spec fn can_run(&self, inputs: Seq<&Witness>, advice: Seq<i128>) -> bool {
        inputs.len() == 1
    }

    open spec fn ran(
        &self,
        inputs: Seq<&Witness>,
        advice: Seq<i128>,
        outputs: Seq<Witness>,
    ) -> bool {
        outputs.len() == 1 && outputs[0]@ == inputs[0]@
    }

    fn run(&self, inputs: &[&Witness], advice: &[i128]) -> (r: Vec<Witness>) {
        let mut r: Vec<Witness> = Vec::new();
        r.push(inputs[0].clone());
        r
    }

    open spec fn can_prove(
        &self,
        witnesses: Seq<&Witness>,
        edge_ids: Seq<usize>,
        out_claims: Seq<&Claim>,
    ) -> bool {
        &&& witnesses.len() == 1
        &&& edge_ids.len() >= 1
        &&& out_claims.len() >= 1
        &&& witnesses[0].data matches Some(Poly::Dense(x)) && x.well_formed() && x.n < usize::BITS
        &&& forall|i: int|
            0 <= i < out_claims.len() ==> (#[trigger] out_claims[i]).point@.len()
                == witnesses[0].data->0.vars()
    }

    open spec fn proved(
        &self,
        witnesses: Seq<&Witness>,
        edge_ids: Seq<usize>,
        out_claims: Seq<&Claim>,
        log: Seq<int>,
        proofs: Seq<SumcheckProof>,
        claims: Seq<Claim>,
        after: Seq<int>,
    ) -> bool {
        let n = witnesses[0].data->0.vars();
        let alpha = challenge(log, "reducer_alpha"@);
        let start = header(drawn(log, "reducer_alpha"@), n as int, 2);
        let terms = reduction_terms(witnesses[0].values(), points_of(out_claims), alpha, n);
        let msgs = messages(proofs[0].round_messages@);
        let challenges = rounds_challenges(start, msgs, n as int);
        &&& proofs.len() == 1
        &&& msgs.len() == n
        &&& honest(terms, challenges, msgs, 2)
        &&& proofs[0].final_eval@ == value_at(terms, challenges) % modulus()
        &&& claims.len() == 1
        &&& claims[0].edge_id == edge_ids[0]
        &&& claims[0].sparse_id == 0
        &&& vals(claims[0].point@) == challenges
        &&& claims[0].eval@ == mle(witnesses[0].values(), challenges) % modulus()
        &&& after == rounds_log(start, msgs, n as int)
    }

    fn prove(
        &self,
        witnesses: &[&Witness],
        edge_ids: &[usize],
        out_claims: &[&Claim],
        transcript: &mut Transcript,
    ) -> (r: (Vec<SumcheckProof>, Vec<Claim>)) {
        let x = witnesses[0].data.as_ref().unwrap();
        let ghost log = transcript@;
        let alpha = transcript.challenge_scalar("reducer_alpha");
        let alphas = calc_pow(alpha, out_claims.len());
        let n = x.n();
        let mut prover = LinearSumcheckProver::new(n, 2, transcript);
        let eq_poly = weight_poly(out_claims, &alphas, n, Ghost(alpha@));
        let mut polys: Vec<DenseMLPoly> = Vec::new();
        if let Poly::Dense(dense) = x {
            polys.push(dense.clone());
        }
        polys.push(eq_poly);
        proof {
            let tables = seq![
                witnesses@[0].values(),
                combined_table(points_of(out_claims@), alpha@, n as nat),
            ];
            assert(eq_poly.table().len() == eq_poly.evaluations@.len());
            assert(tables_of(polys@)[0] =~= tables[0]);
            assert(tables_of(polys@)[1] =~= tables[1]);
            assert(tables_of(polys@) =~= tables);
        }
        let sumcheck_proof = prover.prove(&polys, transcript);
        let challenges = prover.challenges;
        let eval = x.evaluate_at_point(challenges.as_slice());
        let mut claims: Vec<Claim> = Vec::new();
        claims.push(Claim { edge_id: edge_ids[0], sparse_id: 0, point: challenges, eval });
        let mut proofs: Vec<SumcheckProof> = Vec::new();
        proofs.push(sumcheck_proof);
        (proofs, claims)
    }

    open spec fn can_verify(
        &self,
        witnesses: Seq<&Witness>,
        claims: Seq<&Claim>,
        sumcheck_proofs: Seq<&SumcheckProof>,
    ) -> bool {
        &&& witnesses.len() == 1
        &&& claims.len() >= 1
        &&& sumcheck_proofs.len() >= 1
        &&& num_vars(witnesses[0].shape@) <= usize::MAX
        &&& forall|i: int|
            0 <= i < claims.len() - 1 ==> (#[trigger] claims[i]).point@.len() == num_vars(
                witnesses[0].shape@,
            )
    }

    open spec fn verified(
        &self,
        witnesses: Seq<&Witness>,
        claims: Seq<&Claim>,
        sumcheck_proofs: Seq<&SumcheckProof>,
        log: Seq<int>,
        r: bool,
        after: Seq<int>,
    ) -> bool {
        let n = num_vars(witnesses[0].shape@);
        let alpha = challenge(log, "reducer_alpha"@);
        let start = header(drawn(log, "reducer_alpha"@), n as int, 2);
        let given = claims.drop_last();
        let sum = combined_value(given, alpha) % modulus();
        let msgs = messages(sumcheck_proofs[0].round_messages@);
        let challenges = rounds_challenges(start, msgs, n as int);
        let points = points_of(given);
        &&& r <==> accepted(n as int, 2, sum, msgs, challenges) && running_sum(
            sum,
            msgs,
            challenges,
            n as int,
        ) == (claims.last().eval@ * combined_eq(points, alpha, challenges)) % modulus()
        &&& r ==> after == rounds_log(start, msgs, n as int)
        &&& alpha != 0 ==> invertible(alpha)
        &&& forall|table: Seq<int>|
            table.len() == pow2(n) && msgs.len() == n && #[trigger] honest(
                reduction_terms(table, points, alpha, n),
                challenges,
                msgs,
                2,
            ) && all_hold(given, table, n) && claims.last().eval@ == mle(table, challenges)
                % modulus() ==> r
    }

    fn verify(
        &self,
        witnesses: &[&Witness],
        claims: &[&Claim],
        sumcheck_proofs: &[&SumcheckProof],
        transcript: &mut Transcript,
    ) -> (r: bool) {
        let ghost log = transcript@;
        let alpha = transcript.challenge_scalar("reducer_alpha");
        let count = claims.len() - 1;
        let alphas = calc_pow(alpha, count);
        let n = get_n(witnesses[0].shape.as_slice());
        let ghost given = claims@.drop_last();
        let ghost points = points_of(given);
        let ghost a = alpha@;
        let mut eval = Fr::zero();
        let mut i: usize = 0;
        let ghost f = |i: int| power(a, i as nat) * given[i].eval@;
        proof {
            lemma_modulus_bounds();
            vstd::arithmetic::div_mod::lemma_small_mod(0, modulus() as nat);
        }
        while i < count
            invariant
                i <= count,
                count == claims@.len() - 1,
                given == claims@.drop_last(),
                alphas@.len() == count,
                a == alpha@,
                forall|i: int|
                    0 <= i < alphas@.len() ==> (#[trigger] alphas@[i])@ == power(a, i as nat)
                        % modulus(),
                f == (|i: int| power(a, i as nat) * given[i].eval@),
                eval@ == sum_to(f, i as int) % modulus(),
            decreases count - i,
        {
            let term = claims[i].eval.mul(alphas[i]);
            proof {
                let p = power(a, i as nat);
                let v = claims@[i as int].eval@;
                assert(given[i as int] == claims@[i as int]);
                lemma_reduced(p);
                lemma_cong_mul(v, v, alphas@[i as int]@, p);
                lemma_reduced(v * alphas@[i as int]@);
                assert(v * p == p * v) by (nonlinear_arith);
                lemma_reduced(sum_to(f, i as int));
                lemma_cong_add(eval@, sum_to(f, i as int), term@, p * v);
            }
            eval = eval.add(term);
            i += 1;
        }
        assert(eval@ == combined_value(given, a) % modulus());
        let mut verifier = SumcheckVerifier::new(n, 2, transcript);
        let round_messages = copy_messages(&sumcheck_proofs[0].round_messages);
        let ghost msgs = messages(sumcheck_proofs@[0].round_messages@);
        let ghost start = transcript@;
        let ghost all = rounds_challenges(start, msgs, n as int);
        assert(messages(round_messages@) == msgs);
        let (value, challenges) = verifier.verify(transcript, round_messages, eval);
        proof {
            assert forall|table: Seq<int>|
                table.len() == pow2(n as nat) && msgs.len() == n && #[trigger] honest(
                    reduction_terms(table, points, a, n as nat),
                    all,
                    msgs,
                    2,
                ) && all_hold(given, table, n as nat) && claims@.last().eval@ == mle(table, all)
                    % modulus() implies value is Some && value->0@ == (claims@.last().eval@
                * combined_eq(points, a, all)) % modulus() by {
                let terms = reduction_terms(table, points, a, n as nat);
                let d = verifier.num_poly as int;
                let m = verifier.num_var as int;
                assert(m == n && d == 2);
                lemma_reduction_sum(table, given, a, n as nat);
                assert(eval@ == partial_sum(terms, Seq::<int>::empty(), m as nat) % modulus());
                assert(terms[0].1.len() == 2);
                assert(fits(terms, m as nat, d as nat));
                assert(all == rounds_challenges(start, msgs, m));
                assert(honest(terms, all, msgs, d as nat));
                assert forall|i: int| 0 <= i < points.len() implies (#[trigger] points[i]).len()
                    == n by {
                    assert(given[i].point@.len() == n);
                }
                lemma_reduction_value(table, points, a, n as nat, all);
                lemma_reduced(mle(table, all));
                lemma_cong_mul(
                    claims@.last().eval@,
                    mle(table, all),
                    combined_eq(points, a, all),
                    combined_eq(points, a, all),
                );
            }
        }
        let running = match value {
            None => {
                return false;
            },
            Some(v) => v,
        };
        let eq_eval = combined_agreement(claims, &alphas, &challenges, Ghost(a));
        let expected = claims[count].eval.mul(eq_eval);
        proof {
            let e = combined_eq(points, a, all);
            lemma_reduced(e);
            lemma_cong_mul(claims@.last().eval@, claims@.last().eval@, eq_eval@, e);
        }
        running.equals(&expected)
    }
}

/// The agreements of the points of all claims but the last with another point, combined.
fn combined_agreement(
    claims: &[&Claim],
    alphas: &Vec<Fr>,
    challenges: &Vec<Fr>,
    alpha: Ghost<int>,
) -> (r: Fr)
    requires
        claims@.len() >= 1,
        alphas@.len() == claims@.len() - 1,
        forall|i: int|
            0 <= i < alphas@.len() ==> (#[trigger] alphas@[i])@ == power(alpha@, i as nat)
                % modulus(),
        forall|i: int|
            0 <= i < claims@.len() - 1 ==> (#[trigger] claims@[i]).point@.len()
                == challenges@.len(),
    ensures
        r@ == combined_eq(points_of(claims@.drop_last()), alpha@, vals(challenges@)) % modulus(),
{
    let ghost points = points_of(claims@.drop_last());
    let ghost at = vals(challenges@);
    let ghost a = alpha@;
    let ghost f = |i: int| power(a, i as nat) * eq_at(at, points[i]);
    let one = Fr::one();
    let mut sum = Fr::zero();
    let mut i: usize = 0;
    proof {
        lemma_modulus_bounds();
        vstd::arithmetic::div_mod::lemma_small_mod(0, modulus() as nat);
        vstd::arithmetic::div_mod::lemma_small_mod(1, modulus() as nat);
    }
    while i < alphas.len()
        invariant
            i <= alphas@.len(),
            claims@.len() >= 1,
            alphas@.len() == claims@.len() - 1,
            points == points_of(claims@.drop_last()),
            at == vals(challenges@),
            a == alpha@,
            one@ == 1,
            1int % modulus() == 1,
            forall|i: int|
                0 <= i < alphas@.len() ==> (#[trigger] alphas@[i])@ == power(a, i as nat)
                    % modulus(),
            forall|i: int|
                0 <= i < claims@.len() - 1 ==> (#[trigger] claims@[i]).point@.len()
                    == challenges@.len(),
            f == (|i: int| power(a, i as nat) * eq_at(at, points[i])),
            sum@ == sum_to(f, i as int) % modulus(),
        decreases alphas.len() - i,
    {
        let point = &claims[i].point;
        let ghost p = vals(point@);
        assert(claims@[i as int].point@.len() == challenges@.len());
        assert(points[i as int] == p);
        let ghost g = |j: int| at[j] * p[j] + (1 - at[j]) * (1 - p[j]);
        let mut eq = one;
        let mut j: usize = 0;
        while j < challenges.len()
            invariant
                j <= challenges@.len(),
                point@.len() == challenges@.len(),
                at == vals(challenges@),
                p == vals(point@),
                one@ == 1,
                g == (|j: int| at[j] * p[j] + (1 - at[j]) * (1 - p[j])),
                eq@ == product_to(g, j as int) % modulus(),
            decreases challenges.len() - j,
        {
            let (c, q) = (challenges[j], point[j]);
            let both = c.mul(q);
            let nc = one.sub(c);
            let nq = one.sub(q);
            let neither = nc.mul(nq);
            let agree = both.add(neither);
            proof {
                let (x, y) = (at[j as int], p[j as int]);
                lemma_reduced(x * y);
                lemma_reduced(1 - x);
                lemma_reduced(1 - y);
                lemma_cong_mul(nc@, 1 - x, nq@, 1 - y);
                lemma_reduced(nc@ * nq@);
                lemma_cong_add(both@, x * y, neither@, (1 - x) * (1 - y));
                lemma_reduced(both@ + neither@);
                lemma_reduced(product_to(g, j as int));
                lemma_cong_mul(eq@, product_to(g, j as int), agree@, g(j as int));
                lemma_reduced(eq@ * agree@);
            }
            eq = eq.mul(agree);
            j += 1;
        }
        assert(eq@ == eq_at(at, p) % modulus());
        let term = alphas[i].mul(eq);
        proof {
            let w = power(a, i as nat);
            lemma_reduced(w);
            lemma_reduced(eq_at(at, p));
            lemma_cong_mul(alphas@[i as int]@, w, eq@, eq_at(at, p));
            lemma_reduced(alphas@[i as int]@ * eq@);
            lemma_reduced(sum_to(f, i as int));
            lemma_cong_add(sum@, sum_to(f, i as int), term@, w * eq_at(at, p));
        }
        sum = sum.add(term);
        i += 1;
    }
    sum
}

/// Reducing true claims about a tensor and verifying the reduction from the same transcript: it is
/// accepted, the one claim that is left is about the given edge and true, and both transcripts agree
/// afterwards.
pub proof fn lemma_reduction_round_trip(
    x: &Witness,
    edge_ids: Seq<usize>,
    out_claims: Seq<&Claim>,
    log: Seq<int>,
    proofs: Seq<SumcheckProof>,
    claims: Seq<Claim>,
    after: Seq<int>,
    r: bool,
    seen: Seq<int>,
)
    requires
        x.filled(),
        Reducer.can_prove(seq![x], edge_ids, out_claims),
        all_hold(out_claims, x.values(), num_vars(x.shape@)),
        Reducer.proved(seq![x], edge_ids, out_claims, log, proofs, claims, after),
        Reducer.verified(
            seq![x],
            out_claims.push(&claims[0]),
            seq![&proofs[0]],
            log,
            r,
            seen,
        ),
    ensures
        r,
        claims.len() == 1,
        claims[0].edge_id == edge_ids[0],
        holds(&claims[0], x),
        seen == after,
{
    let n = num_vars(x.shape@);
    let alpha = challenge(log, "reducer_alpha"@);
    let start = header(drawn(log, "reducer_alpha"@), n as int, 2);
    let all = out_claims.push(&claims[0]);
    assert(all.drop_last() =~= out_claims);
    assert(all.last() == &claims[0]);
    let msgs = messages(proofs[0].round_messages@);
    assert(seq![&proofs[0]][0] == &proofs[0]);
    let challenges = rounds_challenges(start, msgs, n as int);
    assert(honest(
        reduction_terms(x.values(), points_of(out_claims), alpha, n),
        challenges,
        msgs,
        2,
    ));
}

/// Two sums that differ in one summand differ by as much.
proof fn lemma_sum_change(f: spec_fn(int) -> int, g: spec_fn(int) -> int, i: int, n: int)
    requires
        0 <= i,
        forall|j: int| 0 <= j < n && j != i ==> #[trigger] f(j) == g(j),
    ensures
        i < n ==> sum_to(g, n) - sum_to(f, n) == g(i) - f(i),
        i >= n ==> sum_to(g, n) == sum_to(f, n),
    decreases n,
{
    if n > 0 {
        lemma_sum_change(f, g, i, n - 1);
        if n - 1 != i {
            assert(f(n - 1) == g(n - 1));
        }
    }
}

/// A power of an invertible element can be cancelled.
proof fn lemma_power_cancel(a: int, y: int, n: nat, v: int)
    requires
        cong(a * y, 1),
        cong(power(a, n) * v, 0),
    ensures
        cong(v, 0),
    decreases n,
{
    if n == 0 {
        assert(1 * v == v) by (nonlinear_arith);
    } else {
        let p = power(a, (n - 1) as nat);
        assert((p * a) * v == p * (a * v)) by (nonlinear_arith);
        lemma_power_cancel(a, y, (n - 1) as nat, a * v);
        lemma_cong_mul(y, y, a * v, 0);
        assert(y * (a * v) == (a * y) * v) by (nonlinear_arith);
        assert(y * 0 == 0) by (nonlinear_arith);
        lemma_cong_mul(a * y, 1, v, v);
        assert(1 * v == v) by (nonlinear_arith);
    }
}

/// The combination of the claimed values changes with any one of them, provided that the challenge
/// has an inverse; the first value counts whatever the challenge is.
proof fn lemma_changed_value(claims: Seq<&Claim>, i: int, changed: &Claim, alpha: int)
    requires
        0 <= i < claims.len(),
        changed.eval@ != claims[i].eval@,
        i == 0 || invertible(alpha),
    ensures
        !cong(combined_value(claims.update(i, changed), alpha), combined_value(claims, alpha)),
{
    let others = claims.update(i, changed);
    let f = |j: int| power(alpha, j as nat) * claims[j].eval@;
    let g = |j: int| power(alpha, j as nat) * others[j].eval@;
    lemma_sum_change(f, g, i, claims.len() as int);
    let p = power(alpha, i as nat);
    let (e, c) = (claims[i].eval, changed.eval);
    assert(p * c@ - p * e@ == p * (c@ - e@)) by (nonlinear_arith);
    if cong(combined_value(others, alpha), combined_value(claims, alpha)) {
        lemma_cong_sub(
            combined_value(others, alpha),
            combined_value(claims, alpha),
            combined_value(claims, alpha),
            combined_value(claims, alpha),
        );
        assert(cong(p * (c@ - e@), 0));
        if i == 0 {
            let v = c@ - e@;
            assert(1 * v == v) by (nonlinear_arith);
        } else {
            let y = choose|y: int| #[trigger] cong(alpha * y, 1);
            lemma_power_cancel(alpha, y, i as nat, c@ - e@);
        }
        lemma_cong_add(c@ - e@, 0, e@, e@);
        lemma_fr_range(c);
        lemma_fr_range(e);
        lemma_cong_small(c@, e@);
    }
}

/// A reduction of true claims is refused where any one of the claimed values is another one, provided
/// that the challenge is not zero; where it is the first value that is changed, the reduction is
/// refused whatever the challenge is.
pub proof fn lemma_changed_claim_refused(
    x: &Witness,
    edge_ids: Seq<usize>,
    out_claims: Seq<&Claim>,
    log: Seq<int>,
    proofs: Seq<SumcheckProof>,
    claims: Seq<Claim>,
    after: Seq<int>,
    i: int,
    changed: &Claim,
    r: bool,
    seen: Seq<int>,
)
    requires
        x.filled(),
        Reducer.can_prove(seq![x], edge_ids, out_claims),
        all_hold(out_claims, x.values(), num_vars(x.shape@)),
        Reducer.proved(seq![x], edge_ids, out_claims, log, proofs, claims, after),
        0 <= i < out_claims.len(),
        changed.point@ == out_claims[i].point@,
        changed.eval@ != out_claims[i].eval@,
        i == 0 || challenge(log, "reducer_alpha"@) != 0,
        Reducer.verified(
            seq![x],
            out_claims.update(i, changed).push(&claims[0]),
            seq![&proofs[0]],
            log,
            r,
            seen,
        ),
    ensures
        !r,
{
    let n = num_vars(x.shape@);
    let alpha = challenge(log, "reducer_alpha"@);
    let start = header(drawn(log, "reducer_alpha"@), n as int, 2);
    let given = out_claims.update(i, changed);
    let all = given.push(&claims[0]);
    assert(all.drop_last() =~= given);
    let points = points_of(out_claims);
    assert(points_of(given) =~= points);
    let msgs = messages(proofs[0].round_messages@);
    assert(seq![&proofs[0]][0] == &proofs[0]);
    let challenges = rounds_challenges(start, msgs, n as int);
    let terms = reduction_terms(x.values(), points, alpha, n);
    let none = Seq::<int>::empty();
    let sum = combined_value(given, alpha) % modulus();
    lemma_changed_value(out_claims, i, changed, alpha);
    lemma_reduction_sum(x.values(), out_claims, alpha, n);
    if n >= 1 {
        lemma_first_message(terms, challenges, msgs, 2);
        assert(!round_ok(2, sum, msgs, challenges, 0));
    } else {
        assert(challenges =~= none);
        lemma_last_sum(terms, none);
        assert forall|j: int| 0 <= j < points.len() implies (#[trigger] points[j]).len() == n by {
            assert(out_claims[j].point@.len() == n);
        }
        lemma_reduction_value(x.values(), points, alpha, n, none);
        lemma_reduced(mle(x.values(), none));
        let e = combined_eq(points, alpha, none);
        lemma_cong_mul(claims[0].eval@, mle(x.values(), none), e, e);
    }
}

} // verus!
