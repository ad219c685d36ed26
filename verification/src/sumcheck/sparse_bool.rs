//! The sum-check prover for the claim that selection polynomials are boolean.
use crate::keys::sort_words;
use crate::field::{lemma_fr_range, lemma_vals_push, modulus, vals, CryptoField, Fr};
use crate::math::{
    cong, lemma_cong_add, lemma_cong_mul, lemma_cong_sub, lemma_pow2_small, lemma_pow2_step,
    lemma_reduced, lemma_sum_add, lemma_sum_cong, lemma_sum_ext, lemma_sum_gap, lemma_sum_scale,
    lemma_sum_swap,
    product_to, sum_to,
};
use crate::mle::{
    bits, eq_weight, fold_low, lemma_bits_len, lemma_eq_sum, lemma_mle_cong, mle, table_cong,
};
use crate::poly::dense::{evaluate_lagrange_basis, interpolate};
use crate::sumcheck::prover::{
    append_header, append_message, header, lemma_rounds_challenges_prefix,
    lemma_rounds_log_prefix, messages, proven, SumcheckProof,
};
use crate::sumcheck::theory::{
    bound, lemma_bound_end, lemma_bound_line, lemma_bound_start, lemma_bound_step, partial_sum,
    rounds_challenges, rounds_log, summand_at, value_at,
};
use crate::transcript::Transcript;
use vstd::arithmetic::power2::pow2;
use vstd::prelude::*;

verus! {

/// The table of the polynomial that is one at the given positions and zero elsewhere.
pub open spec fn selection_table(positions: Seq<usize>, n: nat) -> Seq<int> {
    Seq::new(
        pow2(n),
        |p: int|
            if positions.contains(p as usize) {
                1
            } else {
                0
            },
    )
}

/// The table with one taken from every entry.
pub open spec fn minus_one(table: Seq<int>) -> Seq<int> {
    Seq::new(table.len(), |p: int| table[p] - 1)
}

/// The table of `eq(r, x)`.
pub open spec fn eq_table(r: Seq<int>) -> Seq<int> {
    Seq::new(pow2(r.len()), |i: int| eq_weight(r, i))
}

/// The sum of products `eq(r, x) * w_j * s_j(x) * (s_j(x) - 1)`.
pub open spec fn boolean_terms(
    weights: Seq<int>,
    positions: Seq<Vec<usize>>,
    r: Seq<int>,
) -> Seq<(int, Seq<Seq<int>>)> {
    Seq::new(
        weights.len(),
        |j: int|
            {
                let s = selection_table(positions[j]@, r.len());
                (weights[j], seq![s, minus_one(s), eq_table(r)])
            },
    )
}

/// Entries in strictly increasing order of position, all below `size`.
pub open spec fn ordered(entries: Seq<(usize, Fr)>, size: int) -> bool {
    &&& forall|i: int, j: int|
        0 <= i < j < entries.len() ==> (#[trigger] entries[i]).0 < (#[trigger] entries[j]).0
    &&& forall|i: int| 0 <= i < entries.len() ==> (#[trigger] entries[i]).0 < size
}

/// Entry `k` is the one at position `p`.
pub open spec fn is_at(entries: Seq<(usize, Fr)>, p: int, k: int) -> bool {
    0 <= k < entries.len() && entries[k].0 == p
}

/// The value at position `p`, zero where there is no entry.
pub open spec fn entry_at(entries: Seq<(usize, Fr)>, p: int) -> int {
    if exists|k: int| is_at(entries, p, k) {
        entries[choose|k: int| is_at(entries, p, k)].1@
    } else {
        0
    }
}

/// The table that sparse entries stand for.
pub open spec fn entry_table(entries: Seq<(usize, Fr)>, m: nat) -> Seq<int> {
    Seq::new(pow2(m), |p: int| entry_at(entries, p))
}

proof fn lemma_entry_at(entries: Seq<(usize, Fr)>, size: int, k: int)
    requires
        ordered(entries, size),
        0 <= k < entries.len(),
    ensures
        entry_at(entries, entries[k].0 as int) == entries[k].1@,
{
    let p = entries[k].0 as int;
    assert(is_at(entries, p, k));
    let c = choose|k: int| is_at(entries, p, k);
    assert(is_at(entries, p, c));
    assert(c == k) by {
        if c < k {
            assert(entries[c].0 < entries[k].0);
        } else if k < c {
            assert(entries[k].0 < entries[c].0);
        }
    }
}

/// One taken from every entry is one taken from the value.
proof fn lemma_minus_one(table: Seq<int>, r: Seq<int>)
    requires
        table.len() == pow2(r.len()),
    ensures
        mle(minus_one(table), r) == mle(table, r) - 1,
{
    let n = pow2(r.len()) as int;
    let t = minus_one(table);
    let f = |i: int| t[i] * eq_weight(r, i);
    let g = |i: int| table[i] * eq_weight(r, i);
    let e = |i: int| eq_weight(r, i);
    let minus = |i: int| (-1) * e(i);
    lemma_eq_sum(r);
    lemma_sum_scale(-1, e, n);
    lemma_sum_add(g, minus, n);
    let both = |i: int| g(i) + minus(i);
    assert forall|i: int| 0 <= i < n implies #[trigger] f(i) == both(i) by {
        let a = table[i];
        let w = eq_weight(r, i);
        assert((a - 1) * w == a * w + (-1) * w) by (nonlinear_arith);
    }
    lemma_sum_ext(f, both, n);
}

/// The value of the expression as a sum of products.
proof fn lemma_boolean_value(
    weights: Seq<int>,
    positions: Seq<Vec<usize>>,
    r: Seq<int>,
    x: Seq<int>,
)
    requires
        x.len() == r.len(),
    ensures
        value_at(boolean_terms(weights, positions, r), x) == sum_to(
            |j: int|
                {
                    let s = mle(selection_table(positions[j]@, r.len()), x);
                    weights[j] * (s * (s - 1) * mle(eq_table(r), x))
                },
            weights.len() as int,
        ),
{
    let terms = boolean_terms(weights, positions, r);
    let f = |j: int| summand_at(terms[j], x);
    let g = |j: int|
        {
            let s = mle(selection_table(positions[j]@, r.len()), x);
            weights[j] * (s * (s - 1) * mle(eq_table(r), x))
        };
    assert forall|j: int| 0 <= j < weights.len() implies #[trigger] f(j) == g(j) by {
        let t = terms[j].1;
        let table = selection_table(positions[j]@, r.len());
        let s = mle(table, x);
        let e = mle(eq_table(r), x);
        let h = |k: int| mle(t[k], x);
        lemma_minus_one(table, x);
        assert(t[0] == table && t[1] == minus_one(table) && t[2] == eq_table(r));
        assert(h(0) == s && h(1) == s - 1 && h(2) == e);
        assert(product_to(h, 3) == product_to(h, 2) * h(2));
        assert(product_to(h, 2) == product_to(h, 1) * h(1));
        assert(product_to(h, 1) == product_to(h, 0) * h(0));
        assert(1 * s == s) by (nonlinear_arith);
        assert(t.len() == 3);
    }
    lemma_sum_ext(f, g, weights.len() as int);
}

/// Proves that `sum over x of eq(r, x) * (w_1 s_1(x) (s_1(x) - 1) + ...)` is zero, where each `s_j`
/// is a selection polynomial. Only the non-zero positions of the `s_j` are kept.
pub struct SparseBoolSumcheckProver {
    /// The number of variables.
    pub num_var: usize,
    /// The number of rounds run.
    pub current_round: usize,
    /// The challenges of the past rounds.
    pub challenges: Vec<Fr>,
    /// For each selection polynomial its weight and its non-zero entries in order of position.
    pub terms: Vec<(Fr, Vec<(usize, Fr)>)>,
    /// The table of `eq(r, x)` with the variables of the past rounds fixed.
    pub eq_dense: Vec<Fr>,
}

/// The two neighbouring entries at `2 rest` and `2 rest + 1`, starting the search at entry `i`, and
/// the first entry beyond them.
fn pair_at(entries: &Vec<(usize, Fr)>, i: usize, size: Ghost<int>) -> (r: (usize, Fr, Fr, usize))
    requires
        i < entries.len(),
        ordered(entries@, size@),
    ensures
        r.0 == entries@[i as int].0 / 2,
        r.1@ == (if entries@[i as int].0 % 2 == 0 {
            entry_at(entries@, 2 * r.0)
        } else {
            0
        }),
        r.2@ == entry_at(entries@, 2 * r.0 + 1),
        i < r.3 <= entries@.len(),
        forall|k: int| i <= k < r.3 ==> (#[trigger] entries@[k]).0 / 2 == r.0,
        forall|k: int| r.3 <= k < entries@.len() ==> (#[trigger] entries@[k]).0 / 2 > r.0,
{
    let pos = entries[i].0;
    let rest = pos / 2;
    let zero = Fr::zero();
    let ghost e = entries@;
    if pos % 2 == 0 {
        let v0 = entries[i].1;
        proof {
            lemma_entry_at(e, size@, i as int);
        }
        if i + 1 < entries.len() && entries[i + 1].0 == pos + 1 {
            proof {
                lemma_entry_at(e, size@, i + 1);
                assert forall|k: int| i + 2 <= k < e.len() implies (#[trigger] e[k]).0 / 2
                    > rest by {
                    assert(e[i + 1].0 < e[k].0);
                }
            }
            (rest, v0, entries[i + 1].1, i + 2)
        } else {
            proof {
                let p = pos + 1;
                assert(entry_at(e, p) == 0) by {
                    if exists|k: int| is_at(e, p, k) {
                        let k = choose|k: int| is_at(e, p, k);
                        assert(is_at(e, p, k));
                        if k < i {
                            assert(e[k].0 < e[i as int].0);
                        } else if k > i + 1 {
                            assert(e[i as int].0 < e[i + 1].0);
                            assert(e[i + 1].0 < e[k].0);
                        }
                    }
                }
                assert forall|k: int| i + 1 <= k < e.len() implies (#[trigger] e[k]).0 / 2
                    > rest by {
                    assert(e[i as int].0 < e[i + 1].0);
                    if k > i + 1 {
                        assert(e[i + 1].0 < e[k].0);
                    }
                }
            }
            (rest, v0, zero, i + 1)
        }
    } else {
        proof {
            lemma_entry_at(e, size@, i as int);
            assert forall|k: int| i + 1 <= k < e.len() implies (#[trigger] e[k]).0 / 2 > rest by {
                assert(e[i as int].0 < e[k].0);
            }
        }
        (rest, zero, entries[i].1, i + 1)
    }
}

/// The contribution of one pair of neighbouring entries to the round polynomial at `c`.
pub open spec fn pair_value(w: int, table: Seq<int>, eq: Seq<int>, c: int, rest: int) -> int {
    let s = table[2 * rest] + c * (table[2 * rest + 1] - table[2 * rest]);
    let e = eq[2 * rest] + c * (eq[2 * rest + 1] - eq[2 * rest]);
    w * (s * (s - 1) * e)
}

/// The contribution of one selection polynomial to the round polynomial at `c`, with `m` variables
/// left after this round.
pub open spec fn term_round(w: int, table: Seq<int>, eq: Seq<int>, c: int, m: nat) -> int {
    sum_to(|rest: int| pair_value(w, table, eq, c, rest), pow2(m) as int)
}

/// The contribution of one selection polynomial to the round polynomial at `c`.
fn term_sum(w: Fr, entries: &Vec<(usize, Fr)>, eq_dense: &Vec<Fr>, c: Fr, m: Ghost<nat>) -> (r: Fr)
    requires
        ordered(entries@, pow2(m@ + 1) as int),
        eq_dense@.len() == pow2(m@ + 1),
    ensures
        cong(r@, term_round(w@, entry_table(entries@, m@ + 1), vals(eq_dense@), c@, m@)),
{
    let one = Fr::one();
    let ghost table = entry_table(entries@, m@ + 1);
    let ghost eq = vals(eq_dense@);
    let ghost h = |rest: int| pair_value(w@, table, eq, c@, rest);
    let ghost size = pow2(m@ + 1) as int;
    let ghost mut done: int = 0;
    let mut t = Fr::zero();
    let mut i: usize = 0;
    proof {
        lemma_pow2_step(m@);
        assert(eq_dense.len() == eq_dense@.len());
    }
    while i < entries.len()
        invariant
            i <= entries@.len(),
            size == pow2(m@ + 1),
            size == 2 * pow2(m@),
            ordered(entries@, size),
            eq_dense.len() == size,
            table == entry_table(entries@, m@ + 1),
            eq == vals(eq_dense@),
            one@ == 1,
            h == (|rest: int| pair_value(w@, table, eq, c@, rest)),
            0 <= done <= pow2(m@),
            cong(t@, sum_to(h, done)),
            forall|k: int| 0 <= k < i ==> (#[trigger] entries@[k]).0 / 2 < done,
            forall|k: int| i <= k < entries@.len() ==> (#[trigger] entries@[k]).0 / 2 >= done,
        decreases entries.len() - i,
    {
        assert(entries@[i as int].0 < size);
        let (rest, v0, v1, next_i) = pair_at(entries, i, Ghost(size));
        let eq0 = eq_dense[2 * rest];
        let eq1 = eq_dense[2 * rest + 1];
        let s = interpolate(v0, v1, c);
        let e = interpolate(eq0, eq1, c);
        let s1 = s.sub(one);
        let a = w.mul(s);
        let b = a.mul(s1);
        let g = b.mul(e);
        let next = t.add(g);
        proof {
            let r = rest as int;
            assert(v0@ == table[2 * r]) by {
                if entries@[i as int].0 % 2 != 0 {
                    lemma_no_entry(entries@, i as int, done, 2 * r);
                }
            }
            assert(v1@ == table[2 * r + 1]);
            assert forall|q: int| done <= q < r implies #[trigger] h(q) == 0 by {
                lemma_no_entry(entries@, i as int, done, 2 * q);
                lemma_no_entry(entries@, i as int, done, 2 * q + 1);
                lemma_pair_zero(w@, table, eq, c@, q);
            }
            lemma_sum_gap(h, done, r);
            let si = table[2 * r] + c@ * (table[2 * r + 1] - table[2 * r]);
            let ei = eq[2 * r] + c@ * (eq[2 * r + 1] - eq[2 * r]);
            lemma_reduced(si);
            lemma_reduced(ei);
            lemma_reduced(s@ - 1);
            lemma_cong_sub(s@, si, 1, 1);
            lemma_cong_mul(w@, w@, s@, si);
            lemma_reduced(w@ * s@);
            lemma_cong_mul(a@, w@ * si, s1@, si - 1);
            lemma_reduced(a@ * s1@);
            lemma_cong_mul(b@, (w@ * si) * (si - 1), e@, ei);
            lemma_reduced(b@ * e@);
            let wi = w@;
            assert(((wi * si) * (si - 1)) * ei == wi * (si * (si - 1) * ei)) by (nonlinear_arith);
            lemma_cong_add(t@, sum_to(h, r), g@, h(r));
            lemma_reduced(t@ + g@);
            done = r + 1;
            assert forall|k: int| 0 <= k < next_i implies (#[trigger] entries@[k]).0 / 2 < done by {
                if k >= i {
                    assert(entries@[k].0 / 2 == rest);
                }
            }
            assert forall|k: int| next_i <= k < entries@.len() implies (#[trigger] entries@[k]).0
                / 2 >= done by {
                assert(entries@[k].0 / 2 > rest);
            }
        }
        t = next;
        i = next_i;
    }
    proof {
        assert forall|q: int| done <= q < pow2(m@) implies #[trigger] h(q) == 0 by {
            lemma_no_entry(entries@, entries@.len() as int, done, 2 * q);
            lemma_no_entry(entries@, entries@.len() as int, done, 2 * q + 1);
            lemma_pair_zero(w@, table, eq, c@, q);
        }
        lemma_sum_gap(h, done, pow2(m@) as int);
    }
    t
}

/// There is no entry between those handled and entry `i`.
proof fn lemma_no_entry(entries: Seq<(usize, Fr)>, i: int, done: int, p: int)
    requires
        0 <= i <= entries.len(),
        ordered(entries, usize::MAX + 1),
        p / 2 >= done,
        i < entries.len() ==> p < entries[i].0,
        forall|k: int| 0 <= k < i ==> (#[trigger] entries[k]).0 / 2 < done,
    ensures
        entry_at(entries, p) == 0,
{
    if exists|k: int| is_at(entries, p, k) {
        let k = choose|k: int| is_at(entries, p, k);
        assert(is_at(entries, p, k));
        if k < i {
            assert(entries[k].0 / 2 < done);
        } else if k > i {
            assert(entries[i].0 < entries[k].0);
        }
    }
}

proof fn lemma_pair_zero(w: int, table: Seq<int>, eq: Seq<int>, c: int, q: int)
    requires
        table[2 * q] == 0,
        table[2 * q + 1] == 0,
    ensures
        pair_value(w, table, eq, c, q) == 0,
{
    let e = eq[2 * q] + c * (eq[2 * q + 1] - eq[2 * q]);
    assert(0 + c * (0 - 0) == 0) by (nonlinear_arith);
    assert(w * (0 * (0 - 1) * e) == 0) by (nonlinear_arith);
}

/// Fixes the next variable of sparse entries to `x`; entries that become zero are dropped.
fn fold_entries(entries: &Vec<(usize, Fr)>, x: Fr, m: Ghost<nat>) -> (r: Vec<(usize, Fr)>)
    requires
        ordered(entries@, pow2(m@ + 1) as int),
    ensures
        ordered(r@, pow2(m@) as int),
        table_cong(entry_table(r@, m@), fold_low(entry_table(entries@, m@ + 1), x@)),
{
    let zero = Fr::zero();
    let ghost table = entry_table(entries@, m@ + 1);
    let ghost folded = fold_low(table, x@);
    let ghost size = pow2(m@ + 1) as int;
    let ghost mut done: int = 0;
    let mut out: Vec<(usize, Fr)> = Vec::with_capacity(entries.len());
    let mut i: usize = 0;
    proof {
        lemma_pow2_step(m@);
    }
    while i < entries.len()
        invariant
            i <= entries@.len(),
            size == pow2(m@ + 1),
            size == 2 * pow2(m@),
            ordered(entries@, size),
            table == entry_table(entries@, m@ + 1),
            folded == fold_low(table, x@),
            zero@ == 0,
            0 <= done <= pow2(m@),
            ordered(out@, done),
            forall|q: int| 0 <= q < done ==> cong(#[trigger] entry_at(out@, q), folded[q]),
            forall|k: int| 0 <= k < i ==> (#[trigger] entries@[k]).0 / 2 < done,
            forall|k: int| i <= k < entries@.len() ==> (#[trigger] entries@[k]).0 / 2 >= done,
        decreases entries.len() - i,
    {
        assert(entries@[i as int].0 < size);
        let (rest, v0, v1, next_i) = pair_at(entries, i, Ghost(size));
        let v = interpolate(v0, v1, x);
        let ghost before = out@;
        let ghost r = rest as int;
        proof {
            assert(v0@ == table[2 * r]) by {
                if entries@[i as int].0 % 2 != 0 {
                    lemma_no_entry(entries@, i as int, done, 2 * r);
                }
            }
            assert(v1@ == table[2 * r + 1]);
            lemma_reduced(folded[r]);
            assert(cong(v@, folded[r]));
            assert forall|q: int| 0 <= q < r implies cong(
                #[trigger] entry_at(before, q),
                folded[q],
            ) by {
                if q >= done {
                    lemma_no_entry(entries@, i as int, done, 2 * q);
                    lemma_no_entry(entries@, i as int, done, 2 * q + 1);
                    assert(0 + x@ * (0 - 0) == 0) by (nonlinear_arith);
                    lemma_above(before, done, q);
                }
            }
        }
        if !v.equals(&zero) {
            out.push((rest, v));
            proof {
                assert(ordered(out@, r + 1));
                lemma_entry_at(out@, r + 1, before.len() as int);
                assert forall|q: int| 0 <= q < r + 1 implies cong(
                    #[trigger] entry_at(out@, q),
                    folded[q],
                ) by {
                    if q < r {
                        lemma_push_keeps(before, (rest, v), q);
                        assert(cong(entry_at(before, q), folded[q]));
                    }
                }
            }
        } else {
            proof {
                lemma_above(before, done, r);
                assert forall|q: int| 0 <= q < r + 1 implies cong(
                    #[trigger] entry_at(out@, q),
                    folded[q],
                ) by {}
            }
        }
        proof {
            done = r + 1;
            assert forall|k: int| 0 <= k < next_i implies (#[trigger] entries@[k]).0 / 2 < done by {
                if k >= i {
                    assert(entries@[k].0 / 2 == rest);
                }
            }
            assert forall|k: int| next_i <= k < entries@.len() implies (#[trigger] entries@[k]).0
                / 2 >= done by {
                assert(entries@[k].0 / 2 > rest);
            }
        }
        i = next_i;
    }
    proof {
        let new_table = entry_table(out@, m@);
        assert forall|q: int| 0 <= q < new_table.len() implies cong(
            #[trigger] new_table[q],
            folded[q],
        ) by {
            if q >= done {
                lemma_no_entry(entries@, entries@.len() as int, done, 2 * q);
                lemma_no_entry(entries@, entries@.len() as int, done, 2 * q + 1);
                assert(0 + x@ * (0 - 0) == 0) by (nonlinear_arith);
                lemma_above(out@, done, q);
            } else {
                assert(cong(entry_at(out@, q), folded[q]));
            }
        }
    }
    out
}

proof fn lemma_above(entries: Seq<(usize, Fr)>, size: int, p: int)
    requires
        ordered(entries, size),
        p >= size,
    ensures
        entry_at(entries, p) == 0,
{
    if exists|k: int| is_at(entries, p, k) {
        let k = choose|k: int| is_at(entries, p, k);
        assert(is_at(entries, p, k));
        assert(entries[k].0 < size);
    }
}

proof fn lemma_push_keeps(entries: Seq<(usize, Fr)>, e: (usize, Fr), p: int)
    requires
        e.0 != p,
        ordered(entries.push(e), usize::MAX + 1),
    ensures
        entry_at(entries.push(e), p) == entry_at(entries, p),
{
    let longer = entries.push(e);
    if exists|k: int| is_at(entries, p, k) {
        let k = choose|k: int| is_at(entries, p, k);
        assert(is_at(entries, p, k));
        assert(ordered(entries, usize::MAX + 1)) by {
            assert forall|i: int, j: int| 0 <= i < j < entries.len() implies (
            #[trigger] entries[i]).0 < (#[trigger] entries[j]).0 by {
                assert(longer[i].0 < longer[j].0);
            }
        }
        lemma_entry_at(entries, usize::MAX + 1, k);
        lemma_entry_at(longer, usize::MAX + 1, k);
    } else if exists|k: int| is_at(longer, p, k) {
        let k = choose|k: int| is_at(longer, p, k);
        assert(is_at(longer, p, k));
        assert(is_at(entries, p, k));
    }
}

impl SparseBoolSumcheckProver {
    /// The prover stands before the next of its rounds on the given instance.
    spec fn in_round(&self, weights: Seq<int>, positions: Seq<Vec<usize>>, r: Seq<int>) -> bool {
        let m = (self.num_var - self.current_round) as nat;
        let prefix = vals(self.challenges@);
        &&& self.num_var < usize::BITS
        &&& r.len() == self.num_var
        &&& self.current_round <= self.num_var
        &&& self.challenges@.len() == self.current_round
        &&& self.terms@.len() == weights.len()
        &&& positions.len() == weights.len()
        &&& self.eq_dense@.len() == pow2(m)
        &&& bound(eq_table(r), vals(self.eq_dense@), prefix, m)
        &&& forall|j: int|
            0 <= j < weights.len() ==> (#[trigger] self.terms@[j]).0@ == weights[j] && ordered(
                self.terms@[j].1@,
                pow2(m) as int,
            ) && bound(
                selection_table(positions[j]@, r.len()),
                entry_table(self.terms@[j].1@, m),
                prefix,
                m,
            )
    }

    pub fn new(num_var: usize, transcript: &mut Transcript) -> (r: SparseBoolSumcheckProver)
        ensures
            r.num_var == num_var,
            r.current_round == 0,
            r.challenges@.len() == 0,
            final(transcript)@ == header(old(transcript)@, num_var as int, 3),
    {
        append_header(num_var, 3, transcript);
        SparseBoolSumcheckProver {
            num_var,
            current_round: 0,
            challenges: Vec::new(),
            terms: Vec::new(),
            eq_dense: Vec::new(),
        }
    }

    /// Runs the protocol for selection polynomials that are one at the given positions.
    pub fn prove(
        &mut self,
        weights: &[Fr],
        positions: &[Vec<usize>],
        eq_challenge: &[Fr],
        transcript: &mut Transcript,
    ) -> (proof: SumcheckProof)
        requires
            old(self).current_round == 0,
            old(self).challenges@.len() == 0,
            old(self).num_var < usize::BITS,
            weights@.len() == positions@.len(),
            eq_challenge@.len() == old(self).num_var,
            forall|j: int|
                0 <= j < positions@.len() ==> (#[trigger] positions@[j])@.no_duplicates(),
            forall|j: int, k: int|
                0 <= j < positions@.len() && 0 <= k < positions@[j]@.len() ==> (
                #[trigger] positions@[j]@[k]) < pow2(old(self).num_var as nat),
        ensures
            proven(
                boolean_terms(vals(weights@), positions@, vals(eq_challenge@)),
                old(self).num_var as nat,
                3,
                old(transcript)@,
                proof,
                final(transcript)@,
            ),
            vals(final(self).challenges@) == rounds_challenges(
                old(transcript)@,
                messages(proof.round_messages@),
                old(self).num_var as int,
            ),
            final(self).num_var == old(self).num_var,
            final(self).current_round == old(self).num_var,
    {
        let ghost w = vals(weights@);
        let ghost r = vals(eq_challenge@);
        let ghost n = self.num_var as int;
        let ghost terms = boolean_terms(w, positions@, r);
        let ghost log = transcript@;
        let mut list: Vec<(Fr, Vec<(usize, Fr)>)> = Vec::new();
        let mut j: usize = 0;
        while j < weights.len()
            invariant
                j <= weights@.len(),
                weights@.len() == positions@.len(),
                r.len() == n,
                n == self.num_var,
                n < usize::BITS,
                forall|j: int|
                    0 <= j < positions@.len() ==> (#[trigger] positions@[j])@.no_duplicates(),
                forall|j: int, k: int|
                    0 <= j < positions@.len() && 0 <= k < positions@[j]@.len() ==> (
                    #[trigger] positions@[j]@[k]) < pow2(n as nat),
                list@.len() == j,
                forall|i: int|
                    0 <= i < j ==> (#[trigger] list@[i]).0@ == weights@[i]@ && ordered(
                        list@[i].1@,
                        pow2(n as nat) as int,
                    ) && bound(
                        selection_table(positions@[i]@, n as nat),
                        entry_table(list@[i].1@, n as nat),
                        Seq::<int>::empty(),
                        n as nat,
                    ),
            decreases weights.len() - j,
        {
            let entries = initial_entries(&positions[j], Ghost(n as nat));
            proof {
                lemma_bound_start(
                    selection_table(positions@[j as int]@, n as nat),
                    entry_table(entries@, n as nat),
                    n as nat,
                );
            }
            list.push((weights[j], entries));
            j += 1;
        }
        self.terms = list;
        self.eq_dense = evaluate_lagrange_basis(eq_challenge);
        proof {
            assert(vals(self.challenges@) =~= Seq::<int>::empty());
            let dense = vals(self.eq_dense@);
            let table = eq_table(r);
            assert forall|z: Seq<int>| z.len() == n implies cong(
                #[trigger] mle(dense, z),
                mle(table, Seq::<int>::empty() + z),
            ) by {
                assert(Seq::<int>::empty() + z =~= z);
                assert(table_cong(dense, table)) by {
                    assert forall|i: int| 0 <= i < dense.len() implies cong(
                        #[trigger] dense[i],
                        table[i],
                    ) by {
                        lemma_reduced(eq_weight(r, i));
                        assert(dense[i] == self.eq_dense@[i]@);
                    }
                }
                lemma_mle_cong(dense, table, z);
            }
        }
        let mut round_messages: Vec<Vec<Fr>> = Vec::new();
        let mut round: usize = 0;
        while round < self.num_var
            invariant
                round <= self.num_var,
                n == self.num_var,
                self.current_round == round,
                self.in_round(w, positions@, r),
                terms == boolean_terms(w, positions@, r),
                round_messages@.len() == round,
                transcript@ == rounds_log(log, messages(round_messages@), round as int),
                vals(self.challenges@) == rounds_challenges(
                    log,
                    messages(round_messages@),
                    round as int,
                ),
                forall|i: int|
                    0 <= i < round ==> (#[trigger] messages(round_messages@)[i]) =~= Seq::new(
                        4,
                        |c: int|
                            partial_sum(
                                terms,
                                vals(self.challenges@).take(i).push(c),
                                (n - i - 1) as nat,
                            ) % modulus(),
                    ),
            decreases self.num_var - round,
        {
            let ghost prefix = vals(self.challenges@);
            let ghost past = messages(round_messages@);
            let round_message = self.compute_round_message(
                Ghost(w),
                Ghost(positions@),
                Ghost(r),
            );
            append_message(&round_message, transcript);
            let challenge = transcript.challenge_scalar("challenge");
            let ghost msg = vals(round_message@);
            round_messages.push(round_message);
            proof {
                lemma_vals_push(self.challenges@, challenge);
            }
            self.receive_challenge(challenge, Ghost(w), Ghost(positions@), Ghost(r));
            proof {
                let now = messages(round_messages@);
                assert(now =~= past.push(msg));
                lemma_rounds_log_prefix(log, past, now, round as int);
                lemma_rounds_challenges_prefix(log, past, now, round as int);
                let ch = vals(self.challenges@);
                assert(rounds_challenges(log, now, round + 1) =~= rounds_challenges(
                    log,
                    now,
                    round as int,
                ).push(challenge@));
                assert forall|i: int| 0 <= i < round + 1 implies (#[trigger] now[i]) =~= Seq::new(
                    4,
                    |c: int|
                        partial_sum(terms, ch.take(i).push(c), (n - i - 1) as nat) % modulus(),
                ) by {
                    assert(ch.take(i) =~= prefix.take(i));
                    if i == round {
                        assert(prefix.take(i) =~= prefix);
                    } else {
                        assert(now[i] == past[i]);
                    }
                }
            }
            round += 1;
        }
        let final_eval = self.final_evaluation(Ghost(w), Ghost(positions@), Ghost(r));
        SumcheckProof { final_eval, round_messages }
    }

    /// The message of the current round: the sum over the remaining variables, with the next one
    /// set to each of `0..=3`.
    fn compute_round_message(
        &self,
        weights: Ghost<Seq<int>>,
        positions: Ghost<Seq<Vec<usize>>>,
        r: Ghost<Seq<int>>,
    ) -> (msg: Vec<Fr>)
        requires
            self.in_round(weights@, positions@, r@),
            self.current_round < self.num_var,
        ensures
            vals(msg@) =~= Seq::new(
                4,
                |c: int|
                    partial_sum(
                        boolean_terms(weights@, positions@, r@),
                        vals(self.challenges@).push(c),
                        (self.num_var - self.current_round - 1) as nat,
                    ) % modulus(),
            ),
    {
        let ghost prefix = vals(self.challenges@);
        let ghost m = (self.num_var - self.current_round - 1) as nat;
        let ghost terms = boolean_terms(weights@, positions@, r@);
        let ghost eq = vals(self.eq_dense@);
        let mut msg: Vec<Fr> = Vec::new();
        let mut c: usize = 0;
        while c < 4
            invariant
                c <= 4,
                self.in_round(weights@, positions@, r@),
                self.current_round < self.num_var,
                m == self.num_var - self.current_round - 1,
                prefix == vals(self.challenges@),
                terms == boolean_terms(weights@, positions@, r@),
                eq == vals(self.eq_dense@),
                vals(msg@) =~= Seq::new(
                    c as nat,
                    |c: int| partial_sum(terms, prefix.push(c), m) % modulus(),
                ),
            decreases 4 - c,
        {
            let x = Fr::from_u64(c as u64);
            let ghost rows = |j: int|
                term_round(
                    weights@[j],
                    entry_table(self.terms@[j].1@, m + 1),
                    eq,
                    c as int,
                    m,
                );
            let mut sum = Fr::zero();
            let mut j: usize = 0;
            while j < self.terms.len()
                invariant
                    j <= self.terms@.len(),
                    self.in_round(weights@, positions@, r@),
                    self.current_round < self.num_var,
                    m == self.num_var - self.current_round - 1,
                    eq == vals(self.eq_dense@),
                    x@ == c,
                    rows == (|j: int|
                        term_round(
                            weights@[j],
                            entry_table(self.terms@[j].1@, m + 1),
                            eq,
                            c as int,
                            m,
                        )),
                    cong(sum@, sum_to(rows, j as int)),
                decreases self.terms.len() - j,
            {
                assert(self.terms@[j as int].0@ == weights@[j as int]);
                let part = term_sum(
                    self.terms[j].0,
                    &self.terms[j].1,
                    &self.eq_dense,
                    x,
                    Ghost(m),
                );
                let next = sum.add(part);
                proof {
                    let jj = j as int;
                    lemma_cong_add(sum@, sum_to(rows, jj), part@, rows(jj));
                    lemma_reduced(sum@ + part@);
                }
                sum = next;
                j += 1;
            }
            proof {
                self.lemma_message(weights@, positions@, r@, c as int);
                lemma_fr_range(sum);
                lemma_vals_push(msg@, sum);
            }
            msg.push(sum);
            c += 1;
        }
        msg
    }

    /// The contributions of the pairs of all the selection polynomials make up the round
    /// polynomial.
    proof fn lemma_message(
        &self,
        weights: Seq<int>,
        positions: Seq<Vec<usize>>,
        r: Seq<int>,
        c: int,
    )
        requires
            self.in_round(weights, positions, r),
            self.current_round < self.num_var,
        ensures
            ({
                let m = (self.num_var - self.current_round - 1) as nat;
                cong(
                    sum_to(
                        |j: int|
                            term_round(
                                weights[j],
                                entry_table(self.terms@[j].1@, m + 1),
                                vals(self.eq_dense@),
                                c,
                                m,
                            ),
                        weights.len() as int,
                    ),
                    partial_sum(
                        boolean_terms(weights, positions, r),
                        vals(self.challenges@).push(c),
                        m,
                    ),
                )
            }),
    {
        let m = (self.num_var - self.current_round - 1) as nat;
        let prefix = vals(self.challenges@);
        let eq = vals(self.eq_dense@);
        let half = pow2(m) as int;
        let f = |j: int, rest: int|
            pair_value(weights[j], entry_table(self.terms@[j].1@, m + 1), eq, c, rest);
        lemma_sum_swap(f, weights.len() as int, half);
        let cols = |rest: int| sum_to(|j: int| f(j, rest), weights.len() as int);
        let terms = boolean_terms(weights, positions, r);
        let goal = |b: int| value_at(terms, prefix.push(c) + bits(b, m));
        assert forall|b: int| 0 <= b < half implies cong(#[trigger] cols(b), goal(b)) by {
            let x = prefix.push(c) + bits(b, m);
            lemma_bits_len(b, m);
            lemma_boolean_value(weights, positions, r, x);
            let col = |j: int| f(j, b);
            let val = |j: int|
                {
                    let s = mle(selection_table(positions[j]@, r.len()), x);
                    weights[j] * (s * (s - 1) * mle(eq_table(r), x))
                };
            assert forall|j: int| 0 <= j < weights.len() implies cong(
                #[trigger] col(j),
                val(j),
            ) by {
                assert(self.terms@[j].0@ == weights[j]);
                let table = entry_table(self.terms@[j].1@, m + 1);
                lemma_bound_line(
                    selection_table(positions[j]@, r.len()),
                    table,
                    prefix,
                    m,
                    c,
                    b,
                );
                lemma_bound_line(eq_table(r), eq, prefix, m, c, b);
                let s1 = table[2 * b] + c * (table[2 * b + 1] - table[2 * b]);
                let e1 = eq[2 * b] + c * (eq[2 * b + 1] - eq[2 * b]);
                let s = mle(selection_table(positions[j]@, r.len()), x);
                let e = mle(eq_table(r), x);
                lemma_cong_sub(s1, s, 1, 1);
                lemma_cong_mul(s1, s, s1 - 1, s - 1);
                lemma_cong_mul(s1 * (s1 - 1), s * (s - 1), e1, e);
                lemma_cong_mul(weights[j], weights[j], s1 * (s1 - 1) * e1, s * (s - 1) * e);
            }
            lemma_sum_cong(col, val, weights.len() as int);
        }
        lemma_sum_cong(cols, goal, half);
        let rows = |j: int|
            term_round(weights[j], entry_table(self.terms@[j].1@, m + 1), eq, c, m);
        let rows2 = |j: int| sum_to(|rest: int| f(j, rest), half);
        assert forall|j: int| 0 <= j < weights.len() implies #[trigger] rows(j) == rows2(j) by {
            lemma_sum_ext(
                |rest: int|
                    pair_value(weights[j], entry_table(self.terms@[j].1@, m + 1), eq, c, rest),
                |rest: int| f(j, rest),
                half,
            );
        }
        lemma_sum_ext(rows, rows2, weights.len() as int);
    }

    /// Takes the verifier's challenge and fixes the next variable to it.
    fn receive_challenge(
        &mut self,
        challenge: Fr,
        weights: Ghost<Seq<int>>,
        positions: Ghost<Seq<Vec<usize>>>,
        r: Ghost<Seq<int>>,
    )
        requires
            old(self).in_round(weights@, positions@, r@),
            old(self).current_round < old(self).num_var,
        ensures
            final(self).in_round(weights@, positions@, r@),
            final(self).num_var == old(self).num_var,
            final(self).current_round == old(self).current_round + 1,
            final(self).challenges@ == old(self).challenges@.push(challenge),
    {
        let ghost prefix = vals(self.challenges@);
        let ghost m = (self.num_var - self.current_round - 1) as nat;
        let ghost before = self.terms@;
        proof {
            lemma_vals_push(self.challenges@, challenge);
            lemma_pow2_step(m);
        }
        let half = self.eq_dense.len() / 2;
        let mut new_eq: Vec<Fr> = Vec::with_capacity(half);
        let mut rest: usize = 0;
        while rest < half
            invariant
                rest <= half,
                half * 2 == self.eq_dense@.len(),
                self.eq_dense.len() == self.eq_dense@.len(),
                new_eq@.len() == rest,
                forall|q: int|
                    0 <= q < rest ==> (#[trigger] new_eq@[q])@ == (self.eq_dense@[2 * q]@
                        + challenge@ * (self.eq_dense@[2 * q + 1]@ - self.eq_dense@[2 * q]@))
                        % modulus(),
            decreases half - rest,
        {
            new_eq.push(
                interpolate(self.eq_dense[2 * rest], self.eq_dense[2 * rest + 1], challenge),
            );
            rest += 1;
        }
        proof {
            let old_eq = vals(self.eq_dense@);
            let now = vals(new_eq@);
            let folded = fold_low(old_eq.take(2 * pow2(m) as int), challenge@);
            assert(table_cong(now.take(pow2(m) as int), folded)) by {
                assert forall|q: int| 0 <= q < pow2(m) implies cong(
                    #[trigger] now.take(pow2(m) as int)[q],
                    folded[q],
                ) by {
                    lemma_reduced(folded[q]);
                    assert(now[q] == new_eq@[q]@);
                }
            }
            lemma_bound_step(eq_table(r@), old_eq, now, prefix, m, challenge@);
        }
        self.eq_dense = new_eq;
        let mut j: usize = 0;
        let mut list: Vec<(Fr, Vec<(usize, Fr)>)> = Vec::with_capacity(self.terms.len());
        while j < self.terms.len()
            invariant
                j <= self.terms@.len(),
                self.terms@ == before,
                before.len() == weights@.len(),
                forall|i: int|
                    0 <= i < before.len() ==> (#[trigger] before[i]).0@ == weights@[i] && ordered(
                        before[i].1@,
                        pow2(m + 1) as int,
                    ) && bound(
                        selection_table(positions@[i]@, r@.len()),
                        entry_table(before[i].1@, m + 1),
                        prefix,
                        m + 1,
                    ),
                list@.len() == j,
                forall|i: int|
                    0 <= i < j ==> (#[trigger] list@[i]).0@ == weights@[i] && ordered(
                        list@[i].1@,
                        pow2(m) as int,
                    ) && bound(
                        selection_table(positions@[i]@, r@.len()),
                        entry_table(list@[i].1@, m),
                        prefix.push(challenge@),
                        m,
                    ),
            decreases self.terms.len() - j,
        {
            assert(before[j as int].0@ == weights@[j as int]);
            let entries = fold_entries(&self.terms[j].1, challenge, Ghost(m));
            proof {
                lemma_pow2_step(m);
                let a = entry_table(before[j as int].1@, m + 1);
                let b = entry_table(entries@, m);
                assert(a.take(2 * pow2(m) as int) =~= a);
                assert(b.take(pow2(m) as int) =~= b);
                lemma_bound_step(
                    selection_table(positions@[j as int]@, r@.len()),
                    a,
                    b,
                    prefix,
                    m,
                    challenge@,
                );
            }
            list.push((self.terms[j].0, entries));
            j += 1;
        }
        self.terms = list;
        self.challenges.push(challenge);
        self.current_round += 1;
    }

    /// The summed expression at the challenge point.
    fn final_evaluation(
        &self,
        weights: Ghost<Seq<int>>,
        positions: Ghost<Seq<Vec<usize>>>,
        r: Ghost<Seq<int>>,
    ) -> (result: Fr)
        requires
            self.in_round(weights@, positions@, r@),
            self.current_round == self.num_var,
        ensures
            result@ == value_at(
                boolean_terms(weights@, positions@, r@),
                vals(self.challenges@),
            ) % modulus(),
    {
        let zero = Fr::zero();
        let one = Fr::one();
        let ghost point = vals(self.challenges@);
        let ghost e = mle(eq_table(r@), point);
        proof {
            lemma_pow2_small();
            lemma_bound_end(eq_table(r@), vals(self.eq_dense@), point);
        }
        let eq_val = self.eq_dense[0];
        let ghost f = |j: int|
            {
                let s = mle(selection_table(positions@[j]@, r@.len()), point);
                weights@[j] * (s * (s - 1))
            };
        let mut inner = zero;
        let mut j: usize = 0;
        while j < self.terms.len()
            invariant
                j <= self.terms@.len(),
                self.in_round(weights@, positions@, r@),
                self.current_round == self.num_var,
                point == vals(self.challenges@),
                zero@ == 0,
                one@ == 1,
                f == (|j: int|
                    {
                        let s = mle(selection_table(positions@[j]@, r@.len()), point);
                        weights@[j] * (s * (s - 1))
                    }),
                cong(inner@, sum_to(f, j as int)),
            decreases self.terms.len() - j,
        {
            assert(self.terms@[j as int].0@ == weights@[j as int]);
            let w = self.terms[j].0;
            let entries = &self.terms[j].1;
            let v = if entries.len() == 0 || entries[0].0 != 0 {
                zero
            } else {
                entries[0].1
            };
            let v1 = v.sub(one);
            let a = w.mul(v);
            let b = a.mul(v1);
            let next = inner.add(b);
            proof {
                lemma_pow2_small();
                let table = selection_table(positions@[j as int]@, r@.len());
                let now = entry_table(entries@, 0);
                lemma_bound_end(table, now, point);
                assert(v@ == now[0]) by {
                    if entries@.len() > 0 && entries@[0].0 == 0 {
                        lemma_entry_at(entries@, 1, 0);
                    } else {
                        if exists|k: int| is_at(entries@, 0, k) {
                            let k = choose|k: int| is_at(entries@, 0, k);
                            assert(is_at(entries@, 0, k));
                            if k > 0 {
                                assert(entries@[0].0 < entries@[k].0);
                            }
                        }
                    }
                }
                let s = mle(table, point);
                lemma_reduced(v@ - 1);
                lemma_cong_sub(v@, s, 1, 1);
                lemma_cong_mul(w@, w@, v@, s);
                lemma_reduced(w@ * v@);
                lemma_cong_mul(a@, w@ * s, v1@, s - 1);
                lemma_reduced(a@ * v1@);
                let wi = w@;
                assert((wi * s) * (s - 1) == wi * (s * (s - 1))) by (nonlinear_arith);
                lemma_cong_add(inner@, sum_to(f, j as int), b@, f(j as int));
                lemma_reduced(inner@ + b@);
            }
            inner = next;
            j += 1;
        }
        let result = eq_val.mul(inner);
        proof {
            let n = weights@.len() as int;
            lemma_boolean_value(weights@, positions@, r@, point);
            lemma_sum_scale(e, f, n);
            let scaled = |j: int| e * f(j);
            let g = |j: int|
                {
                    let s = mle(selection_table(positions@[j]@, r@.len()), point);
                    weights@[j] * (s * (s - 1) * mle(eq_table(r@), point))
                };
            assert forall|j: int| 0 <= j < n implies #[trigger] scaled(j) == g(j) by {
                let s = mle(selection_table(positions@[j]@, r@.len()), point);
                let w = weights@[j];
                assert(e * (w * (s * (s - 1))) == w * (s * (s - 1) * e)) by (nonlinear_arith);
            }
            lemma_sum_ext(scaled, g, n);
            lemma_cong_mul(eq_val@, e, inner@, sum_to(f, n));
            lemma_reduced(eq_val@ * inner@);
            lemma_fr_range(result);
        }
        result
    }
}

/// The entries of a selection polynomial: a one at each position, in order.
fn initial_entries(positions: &Vec<usize>, n: Ghost<nat>) -> (entries: Vec<(usize, Fr)>)
    requires
        n@ < usize::BITS,
        positions@.no_duplicates(),
        forall|k: int| 0 <= k < positions@.len() ==> (#[trigger] positions@[k]) < pow2(n@),
    ensures
        ordered(entries@, pow2(n@) as int),
        entry_table(entries@, n@) =~= selection_table(positions@, n@),
{
    let mut sorted: Vec<usize> = Vec::with_capacity(positions.len());
    let mut k: usize = 0;
    while k < positions.len()
        invariant
            k <= positions@.len(),
            sorted@ == positions@.take(k as int),
        decreases positions.len() - k,
    {
        sorted.push(positions[k]);
        k += 1;
    }
    assert(sorted@ =~= positions@);
    sort_words(&mut sorted);
    proof {
        positions@.lemma_multiset_has_no_duplicates();
        sorted@.lemma_multiset_has_no_duplicates_conv();
        vstd::seq_lib::to_multiset_contains(positions@, 0);
        assert forall|x: usize| sorted@.contains(x) == positions@.contains(x) by {
            vstd::seq_lib::to_multiset_contains(positions@, x);
            vstd::seq_lib::to_multiset_contains(sorted@, x);
        }
    }
    let one = Fr::one();
    let mut entries: Vec<(usize, Fr)> = Vec::with_capacity(sorted.len());
    let mut k: usize = 0;
    while k < sorted.len()
        invariant
            k <= sorted@.len(),
            entries@ == Seq::new(k as nat, |i: int| (sorted@[i], one)),
        decreases sorted.len() - k,
    {
        entries.push((sorted[k], one));
        k += 1;
    }
    proof {
        let e = entries@;
        assert forall|i: int, j: int| 0 <= i < j < e.len() implies (#[trigger] e[i]).0 < (
        #[trigger] e[j]).0 by {
            assert(sorted@[i] <= sorted@[j]);
            assert(sorted@[i] != sorted@[j]);
        }
        assert forall|i: int| 0 <= i < e.len() implies (#[trigger] e[i]).0 < pow2(n@) by {
            assert(sorted@.contains(sorted@[i]));
            let q = choose|q: int| 0 <= q < positions@.len() && positions@[q] == sorted@[i];
            assert(positions@[q] < pow2(n@));
        }
        let table = entry_table(e, n@);
        let goal = selection_table(positions@, n@);
        assert forall|p: int| 0 <= p < pow2(n@) implies #[trigger] table[p] == goal[p] by {
            vstd::bits::lemma_usize_pow2_no_overflow(n@);
            if positions@.contains(p as usize) {
                assert(sorted@.contains(p as usize));
                let q = choose|q: int| 0 <= q < sorted@.len() && sorted@[q] == p as usize;
                assert(e[q].0 == p as usize);
                lemma_entry_at(e, pow2(n@) as int, q);
            } else if exists|k: int| is_at(e, p, k) {
                let k = choose|k: int| is_at(e, p, k);
                assert(is_at(e, p, k));
                assert(sorted@[k] == p);
                assert(sorted@.contains(p as usize));
            }
        }
    }
    entries
}

} // verus!
