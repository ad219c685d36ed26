//! What the sum-check protocol is about: sums over the boolean points of a sum of products of
//! multilinear polynomials.
//!
//! A summand is a pair of a scalar and of the tables of the polynomials that it multiplies.
use crate::math::{
    cong, lemma_cong_add, lemma_pow2_small, lemma_pow2_step, lemma_reduced, lemma_sum_add,
    lemma_sum_ext, lemma_sum_pairs, lemma_sum_scale, product_to, sum_to,
};
use crate::field::modulus;
use crate::mle::{
    bits, eq_weight, fold_at, fold_low, lemma_bits_len, lemma_mle_bits, lemma_mle_cong,
    lemma_mle_fold_at, lemma_mle_fold_low, lemma_mle_prefix, mle, table_cong,
};
use crate::poly::degree::{
    curry, degree_below, lemma_degree_const, lemma_degree_ext, lemma_degree_more,
    lemma_degree_mul_linear, lemma_degree_scale, lemma_degree_sum,
};
use crate::transcript::{appended, challenge, drawn};
use vstd::arithmetic::power2::pow2;
use vstd::prelude::*;

verus! {

/// The value of one summand at the point `r`.
pub open spec fn summand_at(term: (int, Seq<Seq<int>>), r: Seq<int>) -> int {
    term.0 * product_to(|k: int| mle(term.1[k], r), term.1.len() as int)
}

/// The value of the sum of products at the point `r`.
pub open spec fn value_at(terms: Seq<(int, Seq<Seq<int>>)>, r: Seq<int>) -> int {
    sum_to(|j: int| summand_at(terms[j], r), terms.len() as int)
}

/// The sum of the values over the boolean points that begin with `prefix` and go on for `m` bits.
pub open spec fn partial_sum(
    terms: Seq<(int, Seq<Seq<int>>)>,
    prefix: Seq<int>,
    m: nat,
) -> int {
    sum_to(|b: int| value_at(terms, prefix + bits(b, m)), pow2(m) as int)
}

/// Every table has `2^n` entries and every summand multiplies at most `d` of them.
pub open spec fn fits(terms: Seq<(int, Seq<Seq<int>>)>, n: nat, d: nat) -> bool {
    forall|j: int|
        0 <= j < terms.len() ==> (#[trigger] terms[j]).1.len() <= d && forall|k: int|
            0 <= k < terms[j].1.len() ==> (#[trigger] terms[j].1[k]).len() == pow2(n)
}

/// The sum over the two values of the next variable is the sum over both.
pub proof fn lemma_round_sum(terms: Seq<(int, Seq<Seq<int>>)>, prefix: Seq<int>, m: nat)
    ensures
        partial_sum(terms, prefix.push(0), m) + partial_sum(terms, prefix.push(1), m)
            == partial_sum(terms, prefix, m + 1),
{
    let f = |b: int| value_at(terms, prefix + bits(b, m + 1));
    let lo = |b: int| value_at(terms, prefix.push(0) + bits(b, m));
    let hi = |b: int| value_at(terms, prefix.push(1) + bits(b, m));
    let n = pow2(m) as int;
    lemma_pow2_step(m);
    lemma_sum_pairs(f, n);
    lemma_sum_add(lo, hi, n);
    let pairs = |b: int| f(2 * b) + f(2 * b + 1);
    let both = |b: int| lo(b) + hi(b);
    assert forall|b: int| 0 <= b < n implies #[trigger] pairs(b) == both(b) by {
        assert((2 * b) % 2 == 0 && (2 * b) / 2 == b);
        assert((2 * b + 1) % 2 == 1 && (2 * b + 1) / 2 == b);
        assert(bits(2 * b, m + 1) =~= seq![0int] + bits(b, m));
        assert(bits(2 * b + 1, m + 1) =~= seq![1int] + bits(b, m));
        assert(prefix + bits(2 * b, m + 1) =~= prefix.push(0) + bits(b, m));
        assert(prefix + bits(2 * b + 1, m + 1) =~= prefix.push(1) + bits(b, m));
    }
    lemma_sum_ext(pairs, both, n);
}

/// With no variable left, the sum is the value.
pub proof fn lemma_last_sum(terms: Seq<(int, Seq<Seq<int>>)>, prefix: Seq<int>)
    ensures
        partial_sum(terms, prefix, 0) == value_at(terms, prefix),
{
    lemma_pow2_small();
    let f = |b: int| value_at(terms, prefix + bits(b, 0));
    assert(prefix + bits(0, 0) =~= prefix);
    assert(sum_to(f, 1) == sum_to(f, 0) + f(0));
}

/// A multilinear extension is an affine function of each coordinate.
pub proof fn lemma_mle_affine(table: Seq<int>, z: Seq<int>, x: int, w: Seq<int>)
    requires
        table.len() == pow2(z.len() + 1 + w.len()),
    ensures
        mle(table, z + seq![x] + w) == mle(table, z + seq![0int] + w) + (mle(
            table,
            z + seq![1int] + w,
        ) - mle(table, z + seq![0int] + w)) * x,
{
    let k = z.len();
    let r = z + w;
    let n = pow2(r.len()) as int;
    lemma_mle_fold_at(table, z, x, w);
    lemma_mle_fold_at(table, z, 0, w);
    lemma_mle_fold_at(table, z, 1, w);
    lemma_pow2_step(r.len());
    let tx = fold_at(table, k, x);
    let t0 = fold_at(table, k, 0);
    let t1 = fold_at(table, k, 1);
    let fx = |i: int| tx[i] * eq_weight(r, i);
    let f0 = |i: int| t0[i] * eq_weight(r, i);
    let f1 = |i: int| t1[i] * eq_weight(r, i);
    let d = |i: int| f1(i) + (-1) * f0(i);
    lemma_sum_scale(-1, f0, n);
    lemma_sum_add(f1, |i: int| (-1) * f0(i), n);
    lemma_sum_ext(d, |i: int| f1(i) + (|i: int| (-1) * f0(i))(i), n);
    lemma_sum_scale(x, d, n);
    let xd = |i: int| x * d(i);
    lemma_sum_add(f0, xd, n);
    let total = |i: int| f0(i) + xd(i);
    assert forall|i: int| 0 <= i < n implies #[trigger] fx(i) == total(i) by {
        let m = pow2(k) as int;
        let lo = table[(i / m) * (2 * m) + i % m];
        let hi = table[(i / m) * (2 * m) + m + i % m];
        let e = eq_weight(r, i);
        assert(tx[i] == lo + x * (hi - lo));
        assert(t0[i] == lo + 0 * (hi - lo));
        assert(t1[i] == lo + 1 * (hi - lo));
        assert((lo + x * (hi - lo)) * e == (lo + 0 * (hi - lo)) * e + x * ((lo + 1 * (hi - lo)) * e
            + (-1) * ((lo + 0 * (hi - lo)) * e))) by (nonlinear_arith);
    }
    lemma_sum_ext(fx, total, n);
    let a = sum_to(f0, n);
    let b = sum_to(f1, n);
    assert(x * (b + (-1) * a) == (b - a) * x) by (nonlinear_arith);
}

/// The values of a product of tables, as the next coordinate varies.
proof fn lemma_product_degree(tables: Seq<Seq<int>>, z: Seq<int>, w: Seq<int>, count: int)
    requires
        0 <= count <= tables.len(),
        forall|k: int|
            0 <= k < tables.len() ==> (#[trigger] tables[k]).len() == pow2(z.len() + 1 + w.len()),
    ensures
        degree_below(
            |x: int| product_to(|k: int| mle(tables[k], z.push(x) + w), count),
            count + 1,
        ),
    decreases count,
{
    let f = |x: int| product_to(|k: int| mle(tables[k], z.push(x) + w), count);
    if count == 0 {
        lemma_degree_const(1);
        lemma_degree_ext(|x: int| 1int, f, 1);
    } else {
        lemma_product_degree(tables, z, w, count - 1);
        let g = |x: int| product_to(|k: int| mle(tables[k], z.push(x) + w), count - 1);
        let t = tables[count - 1];
        let a = mle(t, z + seq![0int] + w);
        let b = mle(t, z + seq![1int] + w) - a;
        lemma_degree_mul_linear(g, a, b, count);
        let h = |x: int| g(x) * (a + b * x);
        assert forall|x: int| #[trigger] f(x) == h(x) by {
            lemma_mle_affine(t, z, x, w);
            assert(z.push(x) + w =~= z + seq![x] + w);
        }
        lemma_degree_ext(h, f, count + 1);
    }
}

/// As a function of the next variable, the sum is a polynomial of degree at most `d`.
pub proof fn lemma_round_degree(
    terms: Seq<(int, Seq<Seq<int>>)>,
    prefix: Seq<int>,
    m: nat,
    d: nat,
)
    requires
        fits(terms, prefix.len() + 1 + m, d),
    ensures
        degree_below(|x: int| partial_sum(terms, prefix.push(x), m), d as int + 1),
{
    let e = d as int + 1;
    let n = pow2(m) as int;
    let f = |b: int, x: int| value_at(terms, prefix.push(x) + bits(b, m));
    assert forall|b: int| 0 <= b < n implies degree_below(#[trigger] curry(f, b), e) by {
        let w = bits(b, m);
        lemma_bits_len(b, m);
        let g = |j: int, x: int| summand_at(terms[j], prefix.push(x) + w);
        assert forall|j: int| 0 <= j < terms.len() implies degree_below(
            #[trigger] curry(g, j),
            e,
        ) by {
            let tables = terms[j].1;
            let c = tables.len() as int;
            lemma_product_degree(tables, prefix, w, c);
            let p = |x: int| product_to(|k: int| mle(tables[k], prefix.push(x) + w), c);
            lemma_degree_more(p, c + 1, e);
            lemma_degree_scale(terms[j].0, p, e);
            lemma_degree_ext(|x: int| terms[j].0 * p(x), curry(g, j), e);
        }
        lemma_degree_sum(g, terms.len() as int, e);
        let total = |x: int| sum_to(|j: int| g(j, x), terms.len() as int);
        let goal = curry(f, b);
        assert forall|x: int| #[trigger] goal(x) == total(x) by {
            lemma_sum_ext(
                |j: int| summand_at(terms[j], prefix.push(x) + w),
                |j: int| g(j, x),
                terms.len() as int,
            );
        }
        lemma_degree_ext(total, goal, e);
    }
    lemma_degree_sum(f, n, e);
    let total = |x: int| sum_to(|b: int| f(b, x), n);
    let goal = |x: int| partial_sum(terms, prefix.push(x), m);
    assert forall|x: int| #[trigger] goal(x) == total(x) by {
        lemma_sum_ext(
            |b: int| value_at(terms, prefix.push(x) + bits(b, m)),
            |b: int| f(b, x),
            n,
        );
    }
    lemma_degree_ext(total, goal, e);
}

/// The log of a transcript after a round message has been appended.
pub open spec fn message_appended(log: Seq<int>, msg: Seq<int>) -> Seq<int>
    decreases msg.len(),
{
    if msg.len() == 0 {
        log
    } else {
        appended(message_appended(log, msg.drop_last()), "round_message"@, msg.last())
    }
}

/// The log of a transcript after `i` rounds with the given messages.
pub open spec fn rounds_log(log: Seq<int>, msgs: Seq<Seq<int>>, i: int) -> Seq<int>
    decreases i,
{
    if i <= 0 {
        log
    } else {
        drawn(message_appended(rounds_log(log, msgs, i - 1), msgs[i - 1]), "challenge"@)
    }
}

/// The challenges of the first `i` rounds with the given messages.
pub open spec fn rounds_challenges(log: Seq<int>, msgs: Seq<Seq<int>>, i: int) -> Seq<int> {
    Seq::new(
        if i < 0 {
            0
        } else {
            i as nat
        },
        |k: int| challenge(message_appended(rounds_log(log, msgs, k), msgs[k]), "challenge"@),
    )
}

/// The messages of an honest prover: in round `i`, the sum over the remaining variables with the
/// next one set to each of `0..=d`.
pub open spec fn honest(
    terms: Seq<(int, Seq<Seq<int>>)>,
    challenges: Seq<int>,
    msgs: Seq<Seq<int>>,
    d: nat,
) -> bool {
    &&& msgs.len() == challenges.len()
    &&& forall|i: int|
        0 <= i < msgs.len() ==> (#[trigger] msgs[i]) =~= Seq::new(
            d + 1,
            |c: int|
                partial_sum(
                    terms,
                    challenges.take(i).push(c),
                    (msgs.len() - i - 1) as nat,
                ) % modulus(),
        )
}

/// `now` is the table of the polynomial of `table` with its first variables fixed to `prefix` and
/// `m` variables left; entries beyond `2^m` are of no account.
pub open spec fn bound(table: Seq<int>, now: Seq<int>, prefix: Seq<int>, m: nat) -> bool {
    &&& now.len() >= pow2(m)
    &&& forall|z: Seq<int>|
        z.len() == m ==> cong(#[trigger] mle(now, z), mle(table, prefix + z))
}

pub proof fn lemma_bound_start(table: Seq<int>, now: Seq<int>, n: nat)
    requires
        now.len() >= pow2(n),
        forall|i: int| 0 <= i < pow2(n) ==> #[trigger] now[i] == table[i],
    ensures
        bound(table, now, Seq::<int>::empty(), n),
{
    assert forall|z: Seq<int>| z.len() == n implies cong(
        #[trigger] mle(now, z),
        mle(table, Seq::<int>::empty() + z),
    ) by {
        assert(Seq::<int>::empty() + z =~= z);
        lemma_mle_prefix(now, table, z);
    }
}

/// The line between two neighbouring entries is the polynomial along its next variable.
pub proof fn lemma_bound_line(
    table: Seq<int>,
    now: Seq<int>,
    prefix: Seq<int>,
    m: nat,
    x: int,
    b: int,
)
    requires
        bound(table, now, prefix, m + 1),
        0 <= b < pow2(m),
    ensures
        cong(
            now[2 * b] + x * (now[2 * b + 1] - now[2 * b]),
            mle(table, prefix.push(x) + bits(b, m)),
        ),
{
    let w = bits(b, m);
    lemma_bits_len(b, m);
    lemma_pow2_step(m);
    let cut = now.take(2 * pow2(m) as int);
    let z = seq![x] + w;
    lemma_mle_fold_low(cut, x, w);
    lemma_mle_bits(fold_low(cut, x), b, m);
    lemma_mle_prefix(cut, now, z);
    assert(cong(mle(now, z), mle(table, prefix + z)));
    assert(prefix + z =~= prefix.push(x) + w);
}

/// Fixing the next variable to `x`.
pub proof fn lemma_bound_step(
    table: Seq<int>,
    before: Seq<int>,
    after: Seq<int>,
    prefix: Seq<int>,
    m: nat,
    x: int,
)
    requires
        bound(table, before, prefix, m + 1),
        after.len() >= pow2(m),
        table_cong(after.take(pow2(m) as int), fold_low(before.take(2 * pow2(m) as int), x)),
    ensures
        bound(table, after, prefix.push(x), m),
{
    lemma_pow2_step(m);
    let cut = before.take(2 * pow2(m) as int);
    let folded = fold_low(cut, x);
    let now = after.take(pow2(m) as int);
    assert forall|z: Seq<int>| z.len() == m implies cong(
        #[trigger] mle(after, z),
        mle(table, prefix.push(x) + z),
    ) by {
        lemma_mle_prefix(after, now, z);
        lemma_mle_cong(now, folded, z);
        lemma_mle_fold_low(cut, x, z);
        let longer = seq![x] + z;
        lemma_mle_prefix(cut, before, longer);
        assert(cong(mle(before, longer), mle(table, prefix + longer)));
        assert(prefix + longer =~= prefix.push(x) + z);
    }
}

/// With every variable fixed, the first entry is the value.
pub proof fn lemma_bound_end(table: Seq<int>, now: Seq<int>, point: Seq<int>)
    requires
        bound(table, now, point, 0),
    ensures
        cong(now[0], mle(table, point)),
{
    lemma_pow2_small();
    let z = Seq::<int>::empty();
    lemma_mle_bits(now, 0, 0);
    assert(bits(0, 0) =~= z);
    assert(cong(mle(now, z), mle(table, point + z)));
    assert(point + z =~= point);
}

/// The values at 0 and 1 of an honest prover's first message add up to the whole sum.
pub proof fn lemma_first_message(
    terms: Seq<(int, Seq<Seq<int>>)>,
    challenges: Seq<int>,
    msgs: Seq<Seq<int>>,
    d: nat,
)
    requires
        honest(terms, challenges, msgs, d),
        msgs.len() >= 1,
        d >= 1,
    ensures
        (msgs[0][0] + msgs[0][1]) % modulus() == partial_sum(
            terms,
            Seq::<int>::empty(),
            msgs.len(),
        ) % modulus(),
{
    let m = (msgs.len() - 1) as nat;
    let none = Seq::<int>::empty();
    assert(challenges.take(0) =~= none);
    let first = Seq::new(
        d + 1,
        |c: int|
            partial_sum(terms, challenges.take(0).push(c), (msgs.len() - 0 - 1) as nat) % modulus(),
    );
    assert(msgs[0] =~= first);
    let a = partial_sum(terms, none.push(0), m);
    let b = partial_sum(terms, none.push(1), m);
    lemma_reduced(a);
    lemma_reduced(b);
    lemma_cong_add(msgs[0][0], a, msgs[0][1], b);
    lemma_round_sum(terms, none, m);
}

} // verus!
