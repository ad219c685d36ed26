//! What the sum-check protocol promises: honest proofs are accepted, and a false claim is accepted
//! only where a challenge happens to be a root.
use crate::math::{
    cong, lemma_cong_add, lemma_cong_mul, lemma_pow2_step, lemma_product_cong, lemma_product_ext,
    lemma_reduced, lemma_sum_cong, lemma_sum_ext, lemma_sum_zero, product_to, sum_to,
};
use crate::mle::{bits, lemma_bits_len, lemma_mle_bits, lemma_mle_cong, mle, table_cong};
use crate::poly::univariate::interpolated;
use crate::sumcheck::general::{
    groups_of, lemma_weighted_value, weighted_terms, GeneralLinearSumcheckProver,
};
use crate::sumcheck::linear::{lemma_single_value, tables_of, LinearSumcheckProver};
use crate::sumcheck::prover::{
    lemma_rounds_log_prefix, messages, proven, SumcheckProof, SumcheckProver,
};
use crate::sumcheck::sparse_bool::{
    boolean_terms, eq_table, minus_one, selection_table,
};
use crate::sumcheck::theory::{
    fits, honest, lemma_first_message, lemma_last_sum, lemma_round_sum, partial_sum,
    rounds_challenges, summand_at, value_at,
};
use crate::sumcheck::verify::{accepted, round_ok, running_sum, verdict};
use crate::field::{lemma_modulus_bounds, modulus, vals, Fr};
use crate::poly::dense::DenseMLPoly;
use vstd::arithmetic::power2::pow2;
use vstd::prelude::*;

verus! {

/// What the prover of a product of polynomials admits is of the degree and size that the verifier
/// checks: its proofs of a sum are accepted.
pub proof fn lemma_linear_fits(prover: LinearSumcheckProver, instances: Vec<DenseMLPoly>)
    requires
        prover.admits(&instances),
    ensures
        fits(prover.terms(&instances), prover.vars(), prover.degree()),
        prover.degree() >= 1,
{
    let terms = prover.terms(&instances);
    assert forall|j: int| 0 <= j < terms.len() implies (#[trigger] terms[j]).1.len()
        <= prover.degree() && forall|k: int|
        0 <= k < terms[j].1.len() ==> (#[trigger] terms[j].1[k]).len() == pow2(prover.vars()) by {
        assert forall|k: int| 0 <= k < terms[j].1.len() implies (#[trigger] terms[j].1[k]).len()
            == pow2(prover.vars()) by {
            assert(instances@[k].evaluations@.len() == pow2(prover.num_var as nat));
        }
    }
}

/// What the prover of a weighted sum of products admits is of the degree and size that the verifier
/// checks: its proofs of a sum are accepted.
pub proof fn lemma_general_fits(
    prover: GeneralLinearSumcheckProver,
    instances: (Vec<Fr>, Vec<Vec<DenseMLPoly>>, DenseMLPoly),
)
    requires
        prover.admits(&instances),
    ensures
        fits(prover.terms(&instances), prover.vars(), prover.degree()),
        prover.degree() >= 1,
{
    let terms = prover.terms(&instances);
    let count = prover.num_poly - 1;
    assert forall|j: int| 0 <= j < terms.len() implies (#[trigger] terms[j]).1.len()
        <= prover.degree() && forall|k: int|
        0 <= k < terms[j].1.len() ==> (#[trigger] terms[j].1[k]).len() == pow2(prover.vars()) by {
        assert(instances.1@[j]@.len() >= count);
        assert forall|k: int| 0 <= k < terms[j].1.len() implies (#[trigger] terms[j].1[k]).len()
            == pow2(prover.vars()) by {
            if k < count {
                assert(instances.1@[j]@[k].evaluations@.len() == pow2(prover.num_var as nat));
            }
        }
    }
}

/// The verdict on the proof of an honest prover, from the same transcript: a claim of the sum is
/// accepted, with the value that the prover found and the point at which it found it, and leaves the
/// verifier's transcript as the prover's is; any other claim about a sum over at least one variable
/// is refused, and no point is given.
pub proof fn lemma_honest_verdict(
    terms: Seq<(int, Seq<Seq<int>>)>,
    n: nat,
    d: nat,
    log: Seq<int>,
    proof: SumcheckProof,
    after: Seq<int>,
    claimed_sum: int,
    r: (Option<Fr>, Vec<Fr>),
    seen: Seq<int>,
)
    requires
        d >= 1,
        fits(terms, n, d),
        proven(terms, n, d, log, proof, after),
        verdict(n, d, log, messages(proof.round_messages@), claimed_sum, r, seen),
    ensures
        claimed_sum == partial_sum(terms, Seq::<int>::empty(), n) % modulus() ==> {
            &&& r.0 is Some
            &&& r.0->0@ == proof.final_eval@
            &&& vals(r.1@) == rounds_challenges(
                log,
                messages(proof.round_messages@),
                n as int,
            )
            &&& seen == after
        },
        n >= 1 && claimed_sum != partial_sum(terms, Seq::<int>::empty(), n) % modulus() ==> r.0
            is None && r.1@.len() == 0,
{
    let msgs = messages(proof.round_messages@);
    let challenges = rounds_challenges(log, msgs, n as int);
    if n >= 1 && claimed_sum != partial_sum(terms, Seq::<int>::empty(), n) % modulus() {
        lemma_first_message(terms, challenges, msgs, d);
        assert(!round_ok(d as int, claimed_sum, msgs, challenges, 0));
    }
}

/// The sum over the boolean points of the product of the entries of some tables.
pub open spec fn product_sum(tables: Seq<Seq<int>>, n: nat) -> int {
    sum_to(
        |b: int| product_to(|k: int| tables[k][b], tables.len() as int),
        pow2(n) as int,
    )
}

/// The sum that the prover of a product of polynomials proves is the sum of the products of their
/// values on the boolean points.
pub proof fn lemma_product_sum(tables: Seq<Seq<int>>, n: nat)
    ensures
        partial_sum(seq![(1int, tables)], Seq::<int>::empty(), n) == product_sum(tables, n),
{
    let terms = seq![(1int, tables)];
    let none = Seq::<int>::empty();
    let f = |b: int| value_at(terms, none + bits(b, n));
    let g = |b: int| product_to(|k: int| tables[k][b], tables.len() as int);
    assert forall|b: int| 0 <= b < pow2(n) implies #[trigger] f(b) == g(b) by {
        let z = bits(b, n);
        assert(none + z =~= z);
        lemma_single_value(tables, z);
        let at = |k: int| mle(tables[k], z);
        let entry = |k: int| tables[k][b];
        assert forall|k: int| 0 <= k < tables.len() implies #[trigger] at(k) == entry(k) by {
            lemma_mle_bits(tables[k], b, n);
        }
        lemma_product_ext(at, entry, tables.len() as int);
    }
    lemma_sum_ext(f, g, pow2(n) as int);
}

/// Proving the sum of a product of polynomials and verifying the proof from the same transcript: the
/// sum of the products of the values on the boolean points is accepted, with the product of the
/// polynomials' values at the challenge point, which is the prover's final evaluation; any other
/// claim about polynomials in at least one variable is refused.
pub proof fn lemma_product_round_trip(
    prover: LinearSumcheckProver,
    instances: Vec<DenseMLPoly>,
    log: Seq<int>,
    proof: SumcheckProof,
    after: Seq<int>,
    claimed_sum: int,
    r: (Option<Fr>, Vec<Fr>),
    seen: Seq<int>,
)
    requires
        prover.admits(&instances),
        proven(prover.terms(&instances), prover.vars(), prover.degree(), log, proof, after),
        verdict(
            prover.num_var as nat,
            prover.num_poly as nat,
            log,
            messages(proof.round_messages@),
            claimed_sum,
            r,
            seen,
        ),
    ensures
        ({
            let n = prover.num_var as nat;
            let tables = tables_of(instances@);
            let point = rounds_challenges(log, messages(proof.round_messages@), n as int);
            let sum = product_sum(tables, n) % modulus();
            &&& proof.final_eval@ == product_to(
                |k: int| mle(tables[k], point),
                tables.len() as int,
            ) % modulus()
            &&& claimed_sum == sum ==> r.0 is Some && r.0->0@ == proof.final_eval@ && vals(r.1@)
                == point && seen == after
            &&& n >= 1 && claimed_sum != sum ==> r.0 is None && r.1@.len() == 0
        }),
{
    let n = prover.num_var as nat;
    let tables = tables_of(instances@);
    let point = rounds_challenges(log, messages(proof.round_messages@), n as int);
    lemma_linear_fits(prover, instances);
    assert(prover.terms(&instances) =~= seq![(1int, tables)]);
    lemma_product_sum(tables, n);
    lemma_single_value(tables, point);
    lemma_honest_verdict(
        prover.terms(&instances),
        n,
        prover.degree(),
        log,
        proof,
        after,
        claimed_sum,
        r,
        seen,
    );
}

/// The sum over the boolean points of the weighted sum of the products of the first `count` tables
/// of each group, times the entry of another table.
pub open spec fn weighted_sum(
    scalars: Seq<int>,
    groups: Seq<Seq<Seq<int>>>,
    eq: Seq<int>,
    count: nat,
    n: nat,
) -> int {
    sum_to(
        |b: int|
            eq[b] * sum_to(
                |j: int| scalars[j] * product_to(|k: int| groups[j][k][b], count as int),
                scalars.len() as int,
            ),
        pow2(n) as int,
    )
}

/// The sum that the prover of a weighted sum of products proves is that of the values on the boolean
/// points.
pub proof fn lemma_weighted_sum(
    scalars: Seq<int>,
    groups: Seq<Seq<Seq<int>>>,
    eq: Seq<int>,
    count: nat,
    n: nat,
)
    requires
        groups.len() == scalars.len(),
        forall|j: int| 0 <= j < groups.len() ==> (#[trigger] groups[j]).len() >= count,
    ensures
        partial_sum(weighted_terms(scalars, groups, eq, count), Seq::<int>::empty(), n)
            == weighted_sum(scalars, groups, eq, count, n),
{
    let terms = weighted_terms(scalars, groups, eq, count);
    let none = Seq::<int>::empty();
    let len = scalars.len() as int;
    let f = |b: int| value_at(terms, none + bits(b, n));
    let g = |b: int|
        eq[b] * sum_to(
            |j: int| scalars[j] * product_to(|k: int| groups[j][k][b], count as int),
            len,
        );
    assert forall|b: int| 0 <= b < pow2(n) implies #[trigger] f(b) == g(b) by {
        let z = bits(b, n);
        assert(none + z =~= z);
        lemma_weighted_value(scalars, groups, eq, count, z);
        lemma_mle_bits(eq, b, n);
        let at = |j: int| scalars[j] * product_to(|k: int| mle(groups[j][k], z), count as int);
        let entry = |j: int| scalars[j] * product_to(|k: int| groups[j][k][b], count as int);
        assert forall|j: int| 0 <= j < len implies #[trigger] at(j) == entry(j) by {
            let p = |k: int| mle(groups[j][k], z);
            let q = |k: int| groups[j][k][b];
            assert forall|k: int| 0 <= k < count implies #[trigger] p(k) == q(k) by {
                lemma_mle_bits(groups[j][k], b, n);
            }
            lemma_product_ext(p, q, count as int);
        }
        lemma_sum_ext(at, entry, len);
    }
    lemma_sum_ext(f, g, pow2(n) as int);
}

/// Proving a weighted sum of products and verifying the proof from the same transcript: the sum of
/// the values on the boolean points is accepted, with the value of the summed expression at the
/// challenge point, which is the prover's final evaluation; any other claim about polynomials in at
/// least one variable is refused.
pub proof fn lemma_weighted_round_trip(
    prover: GeneralLinearSumcheckProver,
    instances: (Vec<Fr>, Vec<Vec<DenseMLPoly>>, DenseMLPoly),
    log: Seq<int>,
    proof: SumcheckProof,
    after: Seq<int>,
    claimed_sum: int,
    r: (Option<Fr>, Vec<Fr>),
    seen: Seq<int>,
)
    requires
        prover.admits(&instances),
        proven(prover.terms(&instances), prover.vars(), prover.degree(), log, proof, after),
        verdict(
            prover.num_var as nat,
            prover.num_poly as nat,
            log,
            messages(proof.round_messages@),
            claimed_sum,
            r,
            seen,
        ),
    ensures
        ({
            let n = prover.num_var as nat;
            let (scalars, groups) = (vals(instances.0@), groups_of(instances.1@));
            let eq = instances.2.table().take(pow2(n) as int);
            let count = (prover.num_poly - 1) as nat;
            let point = rounds_challenges(log, messages(proof.round_messages@), n as int);
            let sum = weighted_sum(scalars, groups, eq, count, n) % modulus();
            &&& proof.final_eval@ == (mle(eq, point) * sum_to(
                |j: int| scalars[j] * product_to(|k: int| mle(groups[j][k], point), count as int),
                scalars.len() as int,
            )) % modulus()
            &&& claimed_sum == sum ==> r.0 is Some && r.0->0@ == proof.final_eval@ && vals(r.1@)
                == point && seen == after
            &&& n >= 1 && claimed_sum != sum ==> r.0 is None && r.1@.len() == 0
        }),
{
    let n = prover.num_var as nat;
    let (scalars, groups) = (vals(instances.0@), groups_of(instances.1@));
    let eq = instances.2.table().take(pow2(n) as int);
    let count = (prover.num_poly - 1) as nat;
    let point = rounds_challenges(log, messages(proof.round_messages@), n as int);
    assert forall|j: int| 0 <= j < groups.len() implies (#[trigger] groups[j]).len() >= count by {
        assert(instances.1@[j]@.len() >= count);
    }
    lemma_general_fits(prover, instances);
    lemma_weighted_sum(scalars, groups, eq, count, n);
    lemma_weighted_value(scalars, groups, eq, count, point);
    lemma_honest_verdict(
        prover.terms(&instances),
        n,
        prover.degree(),
        log,
        proof,
        after,
        claimed_sum,
        r,
        seen,
    );
}

/// The sum that shows that polynomials take the values zero and one alone is of the degree and size
/// that the verifier checks.
pub proof fn lemma_boolean_fits(weights: Seq<int>, positions: Seq<Vec<usize>>, r: Seq<int>)
    ensures
        fits(boolean_terms(weights, positions, r), r.len(), 3),
{
}

/// The summed expression that shows that polynomials take the values zero and one alone is zero at
/// every boolean point for those that are one at given positions and zero elsewhere.
proof fn lemma_boolean_value(weights: Seq<int>, positions: Seq<Vec<usize>>, r: Seq<int>, b: int)
    requires
        0 <= b < pow2(r.len()),
    ensures
        value_at(boolean_terms(weights, positions, r), bits(b, r.len())) == 0,
{
    let terms = boolean_terms(weights, positions, r);
    let n = r.len();
    let z = bits(b, n);
    let g = |j: int| summand_at(terms[j], z);
    assert forall|j: int| 0 <= j < terms.len() implies #[trigger] g(j) == 0 by {
        let s = selection_table(positions[j]@, n);
        let tables = seq![s, minus_one(s), eq_table(r)];
        assert(terms[j] == (weights[j], tables));
        lemma_mle_bits(s, b, n);
        lemma_mle_bits(minus_one(s), b, n);
        let h = |k: int| mle(tables[k], z);
        assert(h(0) == s[b] && h(1) == s[b] - 1);
        assert(product_to(h, 1) == product_to(h, 0) * h(0));
        assert(product_to(h, 2) == product_to(h, 1) * h(1));
        assert(product_to(h, 3) == product_to(h, 2) * h(2));
        let (a, c, e) = (s[b], h(2), weights[j]);
        assert(a == 0 || a == 1);
        assert(e * (((1 * a) * (a - 1)) * c) == 0) by (nonlinear_arith)
            requires
                a == 0 || a == 1,
        ;
    }
    lemma_sum_zero(g, terms.len() as int);
}

/// The sum that shows that polynomials take the values zero and one alone is zero for those that are
/// one at given positions and zero elsewhere.
pub proof fn lemma_boolean_sum(weights: Seq<int>, positions: Seq<Vec<usize>>, r: Seq<int>)
    ensures
        partial_sum(boolean_terms(weights, positions, r), Seq::<int>::empty(), r.len()) == 0,
{
    let terms = boolean_terms(weights, positions, r);
    let n = r.len();
    let none = Seq::<int>::empty();
    let f = |b: int| value_at(terms, none + bits(b, n));
    assert forall|b: int| 0 <= b < pow2(n) implies #[trigger] f(b) == 0 by {
        assert(none + bits(b, n) =~= bits(b, n));
        lemma_boolean_value(weights, positions, r, b);
    }
    lemma_sum_zero(f, pow2(n) as int);
}

/// With the first variable at zero or one, the sum that shows that polynomials take the values zero
/// and one alone is zero too.
pub proof fn lemma_boolean_halves(
    weights: Seq<int>,
    positions: Seq<Vec<usize>>,
    r: Seq<int>,
    c: int,
)
    requires
        r.len() >= 1,
        c == 0 || c == 1,
    ensures
        partial_sum(
            boolean_terms(weights, positions, r),
            Seq::<int>::empty().push(c),
            (r.len() - 1) as nat,
        ) == 0,
{
    let terms = boolean_terms(weights, positions, r);
    let m = (r.len() - 1) as nat;
    let first = Seq::<int>::empty().push(c);
    let f = |b: int| value_at(terms, first + bits(b, m));
    lemma_pow2_step(m);
    assert forall|b: int| 0 <= b < pow2(m) implies #[trigger] f(b) == 0 by {
        let p = 2 * b + c;
        assert(p % 2 == c && p / 2 == b);
        assert(bits(p, m + 1) =~= first + bits(b, m));
        lemma_boolean_value(weights, positions, r, p);
    }
    lemma_sum_zero(f, pow2(m) as int);
}

/// Summand by summand, the scalars and the tables stand for the same field elements, and the tables
/// are those of polynomials in `n` variables.
pub open spec fn same_terms(
    a: Seq<(int, Seq<Seq<int>>)>,
    b: Seq<(int, Seq<Seq<int>>)>,
    n: nat,
) -> bool {
    &&& a.len() == b.len()
    &&& forall|j: int|
        0 <= j < a.len() ==> cong((#[trigger] a[j]).0, b[j].0) && a[j].1.len() == b[j].1.len()
            && forall|k: int|
            0 <= k < a[j].1.len() ==> (#[trigger] a[j].1[k]).len() == pow2(n) && table_cong(
                a[j].1[k],
                b[j].1[k],
            )
}

/// Sums of products of the same field elements have the same value.
proof fn lemma_same_value(
    a: Seq<(int, Seq<Seq<int>>)>,
    b: Seq<(int, Seq<Seq<int>>)>,
    r: Seq<int>,
)
    requires
        same_terms(a, b, r.len()),
    ensures
        cong(value_at(a, r), value_at(b, r)),
{
    let f = |j: int| summand_at(a[j], r);
    let g = |j: int| summand_at(b[j], r);
    assert forall|j: int| 0 <= j < a.len() implies cong(#[trigger] f(j), g(j)) by {
        assert(cong(a[j].0, b[j].0));
        let p = |k: int| mle(a[j].1[k], r);
        let q = |k: int| mle(b[j].1[k], r);
        let len = a[j].1.len() as int;
        assert forall|k: int| 0 <= k < len implies cong(#[trigger] p(k), q(k)) by {
            assert(table_cong(a[j].1[k], b[j].1[k]));
            lemma_mle_cong(a[j].1[k], b[j].1[k], r);
        }
        lemma_product_cong(p, q, len);
        lemma_cong_mul(a[j].0, b[j].0, product_to(p, len), product_to(q, len));
    }
    lemma_sum_cong(f, g, a.len() as int);
}

/// Sums of products of the same field elements have the same partial sums.
proof fn lemma_same_partial_sum(
    a: Seq<(int, Seq<Seq<int>>)>,
    b: Seq<(int, Seq<Seq<int>>)>,
    prefix: Seq<int>,
    m: nat,
)
    requires
        same_terms(a, b, prefix.len() + m),
    ensures
        cong(partial_sum(a, prefix, m), partial_sum(b, prefix, m)),
{
    let f = |x: int| value_at(a, prefix + bits(x, m));
    let g = |x: int| value_at(b, prefix + bits(x, m));
    assert forall|x: int| 0 <= x < pow2(m) implies cong(#[trigger] f(x), g(x)) by {
        lemma_bits_len(x, m);
        lemma_same_value(a, b, prefix + bits(x, m));
    }
    lemma_sum_cong(f, g, pow2(m) as int);
}

/// The first `i` messages of two honest provers of the same sum are equal.
proof fn lemma_same_messages(
    a: Seq<(int, Seq<Seq<int>>)>,
    b: Seq<(int, Seq<Seq<int>>)>,
    d: nat,
    log: Seq<int>,
    left: Seq<Seq<int>>,
    right: Seq<Seq<int>>,
    i: int,
)
    requires
        left.len() == right.len(),
        same_terms(a, b, left.len()),
        honest(a, rounds_challenges(log, left, left.len() as int), left, d),
        honest(b, rounds_challenges(log, right, right.len() as int), right, d),
        0 <= i <= left.len(),
    ensures
        forall|k: int| 0 <= k < i ==> #[trigger] left[k] == right[k],
    decreases i,
{
    if i > 0 {
        let k = i - 1;
        lemma_same_messages(a, b, d, log, left, right, k);
        let n = left.len() as int;
        let x = rounds_challenges(log, left, n);
        let y = rounds_challenges(log, right, n);
        assert forall|q: int| 0 <= q < k implies #[trigger] x.take(k)[q] == y.take(k)[q] by {
            lemma_rounds_log_prefix(log, left, right, q);
            assert(left[q] == right[q]);
        }
        assert(x.take(k) =~= y.take(k));
        let m = (n - k - 1) as nat;
        let p = Seq::new(d + 1, |c: int| partial_sum(a, x.take(k).push(c), m) % modulus());
        let q = Seq::new(d + 1, |c: int| partial_sum(b, y.take(k).push(c), m) % modulus());
        assert(left[k] =~= p);
        assert(right[k] =~= q);
        assert forall|c: int| 0 <= c < d + 1 implies p[c] == q[c] by {
            lemma_same_partial_sum(a, b, x.take(k).push(c), m);
        }
        assert(p =~= q);
    }
}

/// Two honest provers of sums of products of the same field elements, from the same transcript, send
/// the same messages, find the same value, and leave the same transcript.
pub proof fn lemma_same_proof(
    a: Seq<(int, Seq<Seq<int>>)>,
    b: Seq<(int, Seq<Seq<int>>)>,
    n: nat,
    d: nat,
    log: Seq<int>,
    left: SumcheckProof,
    left_after: Seq<int>,
    right: SumcheckProof,
    right_after: Seq<int>,
)
    requires
        same_terms(a, b, n),
        proven(a, n, d, log, left, left_after),
        proven(b, n, d, log, right, right_after),
    ensures
        messages(left.round_messages@) == messages(right.round_messages@),
        left.final_eval@ == right.final_eval@,
        left_after == right_after,
{
    let x = messages(left.round_messages@);
    let y = messages(right.round_messages@);
    lemma_same_messages(a, b, d, log, x, y, n as int);
    assert(x =~= y);
    lemma_same_value(a, b, rounds_challenges(log, x, n as int));
}

/// The sparse prover that polynomials take the values zero and one alone does what the prover of a
/// weighted sum of products does for the tables of those polynomials, the tables less one, and the
/// table of `eq`: from the same transcript both send the same messages, draw the same challenges, find
/// the same value, and leave the same transcript. The first message is zero at zero and at one.
pub proof fn lemma_sparse_as_general(
    weights: Seq<int>,
    positions: Seq<Vec<usize>>,
    eq_challenge: Seq<int>,
    log: Seq<int>,
    sparse: SumcheckProof,
    sparse_after: Seq<int>,
    prover: GeneralLinearSumcheckProver,
    instances: (Vec<Fr>, Vec<Vec<DenseMLPoly>>, DenseMLPoly),
    general: SumcheckProof,
    general_after: Seq<int>,
)
    requires
        weights.len() == positions.len(),
        proven(
            boolean_terms(weights, positions, eq_challenge),
            eq_challenge.len(),
            3,
            log,
            sparse,
            sparse_after,
        ),
        prover.num_var == eq_challenge.len(),
        prover.num_poly == 3,
        prover.admits(&instances),
        vals(instances.0@) == weights,
        forall|j: int|
            0 <= j < positions.len() ==> {
                let s = selection_table(positions[j]@, eq_challenge.len());
                &&& (#[trigger] instances.1@[j])@.len() == 2
                &&& instances.1@[j]@[0].table() == s
                &&& instances.1@[j]@[1].table() == s.map_values(|v: int| (v - 1) % modulus())
            },
        instances.2.table() == eq_table(eq_challenge).map_values(|v: int| v % modulus()),
        proven(
            prover.terms(&instances),
            prover.vars(),
            prover.degree(),
            log,
            general,
            general_after,
        ),
    ensures
        messages(sparse.round_messages@) == messages(general.round_messages@),
        rounds_challenges(
            log,
            messages(sparse.round_messages@),
            eq_challenge.len() as int,
        ) == rounds_challenges(
            log,
            messages(general.round_messages@),
            eq_challenge.len() as int,
        ),
        sparse.final_eval@ == general.final_eval@,
        sparse_after == general_after,
        eq_challenge.len() >= 1 ==> messages(sparse.round_messages@)[0][0] == 0 && messages(
            sparse.round_messages@,
        )[0][1] == 0,
{
    let n = eq_challenge.len();
    let a = boolean_terms(weights, positions, eq_challenge);
    let b = prover.terms(&instances);
    let eq = instances.2.table().take(pow2(n) as int);
    let groups = groups_of(instances.1@);
    assert(b == weighted_terms(weights, groups, eq, 2));
    assert forall|j: int| 0 <= j < a.len() implies cong((#[trigger] a[j]).0, b[j].0) && a[j].1.len()
        == b[j].1.len() && forall|k: int|
        0 <= k < a[j].1.len() ==> (#[trigger] a[j].1[k]).len() == pow2(n) && table_cong(
            a[j].1[k],
            b[j].1[k],
        ) by {
        let s = selection_table(positions[j]@, n);
        assert(a[j] == (weights[j], seq![s, minus_one(s), eq_table(eq_challenge)]));
        assert(instances.1@[j]@.len() == 2);
        assert(groups[j] =~= seq![instances.1@[j]@[0].table(), instances.1@[j]@[1].table()]);
        assert(b[j].1 =~= seq![
            instances.1@[j]@[0].table(),
            instances.1@[j]@[1].table(),
            eq,
        ]);
        assert forall|k: int| 0 <= k < a[j].1.len() implies (#[trigger] a[j].1[k]).len() == pow2(n)
            && table_cong(a[j].1[k], b[j].1[k]) by {
            assert(b[j].1[k].len() == pow2(n));
            assert forall|p: int| 0 <= p < pow2(n) implies cong(
                #[trigger] a[j].1[k][p],
                b[j].1[k][p],
            ) by {
                lemma_reduced(a[j].1[k][p]);
            }
        }
    }
    lemma_same_proof(
        a,
        b,
        n,
        3,
        log,
        sparse,
        sparse_after,
        general,
        general_after,
    );
    if n >= 1 {
        let msgs = messages(sparse.round_messages@);
        let challenges = rounds_challenges(log, msgs, n as int);
        assert(challenges.take(0) =~= Seq::<int>::empty());
        lemma_boolean_halves(weights, positions, eq_challenge, 0);
        lemma_boolean_halves(weights, positions, eq_challenge, 1);
        lemma_modulus_bounds();
        vstd::arithmetic::div_mod::lemma_small_mod(0, modulus() as nat);
        let first = Seq::new(
            4,
            |c: int|
                partial_sum(a, challenges.take(0).push(c), (n - 0 - 1) as nat) % modulus(),
        );
        assert(msgs[0] =~= first);
    }
}

/// The verdict on the proof that polynomials take the values zero and one alone: for polynomials
/// that are one at given positions and zero elsewhere, the claim that the sum is zero is accepted,
/// with the value and the point of the prover, and over at least one variable any other claim is
/// refused.
pub proof fn lemma_boolean_round_trip(
    weights: Seq<int>,
    positions: Seq<Vec<usize>>,
    eq_challenge: Seq<int>,
    log: Seq<int>,
    proof: SumcheckProof,
    after: Seq<int>,
    claimed_sum: int,
    r: (Option<Fr>, Vec<Fr>),
    seen: Seq<int>,
)
    requires
        proven(
            boolean_terms(weights, positions, eq_challenge),
            eq_challenge.len(),
            3,
            log,
            proof,
            after,
        ),
        verdict(
            eq_challenge.len(),
            3,
            log,
            messages(proof.round_messages@),
            claimed_sum,
            r,
            seen,
        ),
    ensures
        claimed_sum == 0 ==> {
            &&& r.0 is Some
            &&& r.0->0@ == proof.final_eval@
            &&& vals(r.1@) == rounds_challenges(
                log,
                messages(proof.round_messages@),
                eq_challenge.len() as int,
            )
            &&& seen == after
        },
        eq_challenge.len() >= 1 && claimed_sum != 0 ==> r.0 is None && r.1@.len() == 0,
{
    let terms = boolean_terms(weights, positions, eq_challenge);
    lemma_boolean_fits(weights, positions, eq_challenge);
    lemma_boolean_sum(weights, positions, eq_challenge);
    lemma_modulus_bounds();
    vstd::arithmetic::div_mod::lemma_small_mod(0, modulus() as nat);
    lemma_honest_verdict(
        terms,
        eq_challenge.len(),
        3,
        log,
        proof,
        after,
        claimed_sum,
        r,
        seen,
    );
}

/// The message of round `i` is not that of the sum, and yet its polynomial and the polynomial of the
/// sum, both of degree at most that of the message, have the same value at the challenge.
pub open spec fn slips(
    terms: Seq<(int, Seq<Seq<int>>)>,
    msgs: Seq<Seq<int>>,
    challenges: Seq<int>,
    i: int,
) -> bool {
    let prefix = challenges.take(i);
    let m = (msgs.len() - i - 1) as nat;
    &&& msgs[i][0] % modulus() != partial_sum(terms, prefix.push(0), m) % modulus() || msgs[i][1]
        % modulus() != partial_sum(terms, prefix.push(1), m) % modulus()
    &&& interpolated(msgs[i], challenges[i]) % modulus() == partial_sum(
        terms,
        prefix.push(challenges[i]),
        m,
    ) % modulus()
}

/// The running sum of a round is that of the sum of products.
spec fn on_track(
    terms: Seq<(int, Seq<Seq<int>>)>,
    claimed_sum: int,
    msgs: Seq<Seq<int>>,
    challenges: Seq<int>,
    i: int,
) -> bool {
    running_sum(claimed_sum, msgs, challenges, i) == partial_sum(
        terms,
        challenges.take(i),
        (msgs.len() - i) as nat,
    ) % modulus()
}

/// A false claim whose proof is accepted, and whose value at the challenge point is that of the
/// summed expression, comes with a round in which two different polynomials of bounded degree meet
/// at the challenge.
pub proof fn lemma_false_claim_slips(
    terms: Seq<(int, Seq<Seq<int>>)>,
    num_poly: int,
    claimed_sum: int,
    msgs: Seq<Seq<int>>,
    challenges: Seq<int>,
)
    requires
        num_poly >= 1,
        challenges.len() == msgs.len(),
        accepted(msgs.len() as int, num_poly, claimed_sum, msgs, challenges),
        claimed_sum != partial_sum(terms, Seq::<int>::empty(), msgs.len()) % modulus(),
        running_sum(claimed_sum, msgs, challenges, msgs.len() as int) == value_at(
            terms,
            challenges,
        ) % modulus(),
    ensures
        exists|i: int| 0 <= i < msgs.len() && #[trigger] slips(terms, msgs, challenges, i),
{
    let n = msgs.len() as int;
    assert(challenges.take(0) =~= Seq::<int>::empty());
    assert(challenges.take(n) =~= challenges);
    lemma_last_sum(terms, challenges);
    let i = lemma_first_match(terms, claimed_sum, msgs, challenges, n);
    let prefix = challenges.take(i);
    let m = (n - i - 1) as nat;
    assert(round_ok(num_poly, claimed_sum, msgs, challenges, i));
    lemma_round_sum(terms, prefix, m);
    let a = partial_sum(terms, prefix.push(0), m);
    let b = partial_sum(terms, prefix.push(1), m);
    if msgs[i][0] % modulus() == a % modulus() && msgs[i][1] % modulus() == b % modulus() {
        lemma_cong_add(msgs[i][0], a, msgs[i][1], b);
    }
    assert(prefix.push(challenges[i]) =~= challenges.take(i + 1));
    assert(slips(terms, msgs, challenges, i));
}

/// The round after which a run that is off track is on track.
proof fn lemma_first_match(
    terms: Seq<(int, Seq<Seq<int>>)>,
    claimed_sum: int,
    msgs: Seq<Seq<int>>,
    challenges: Seq<int>,
    k: int,
) -> (i: int)
    requires
        0 <= k <= msgs.len(),
        !on_track(terms, claimed_sum, msgs, challenges, 0),
        on_track(terms, claimed_sum, msgs, challenges, k),
    ensures
        0 <= i < k,
        !on_track(terms, claimed_sum, msgs, challenges, i),
        on_track(terms, claimed_sum, msgs, challenges, i + 1),
    decreases k,
{
    if on_track(terms, claimed_sum, msgs, challenges, k - 1) {
        lemma_first_match(terms, claimed_sum, msgs, challenges, k - 1)
    } else {
        k - 1
    }
}

} // verus!
