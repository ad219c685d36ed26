//! Selecting variables of a multilinear polynomial.
//!
//! A table that depends only on some of its index bits is the table of a polynomial in fewer
//! variables, spread over the larger index space.
use crate::math::{lemma_pow2_small, lemma_pow2_step};
use crate::mle::{bits, fold_high, lemma_bits_len, lemma_mle_fold_high, mle};
use vstd::arithmetic::power2::pow2;
use vstd::prelude::*;

verus! {

/// The integer with the given bits, the lowest first.
pub open spec fn from_bits(b: Seq<int>) -> int
    decreases b.len(),
{
    if b.len() == 0 {
        0
    } else {
        b[0] + 2 * from_bits(b.skip(1))
    }
}

/// Every entry is a bit.
pub open spec fn all_bits(b: Seq<int>) -> bool {
    forall|i: int| 0 <= i < b.len() ==> 0 <= #[trigger] b[i] <= 1
}

pub proof fn lemma_from_bits_push(b: Seq<int>, x: int)
    ensures
        from_bits(b.push(x)) == from_bits(b) + x * pow2(b.len()),
    decreases b.len(),
{
    let longer = b.push(x);
    lemma_pow2_small();
    if b.len() == 0 {
        assert(longer.skip(1) =~= Seq::<int>::empty());
        assert(from_bits(longer.skip(1)) == 0);
        assert(x * 1 == x) by (nonlinear_arith);
    } else {
        let t = b.skip(1);
        lemma_from_bits_push(t, x);
        assert(longer.skip(1) =~= t.push(x));
        lemma_pow2_step(t.len());
        let p = pow2(t.len()) as int;
        assert(2 * (x * p) == x * (2 * p)) by (nonlinear_arith);
    }
}

pub proof fn lemma_from_bits_bound(b: Seq<int>)
    requires
        all_bits(b),
    ensures
        0 <= from_bits(b) < pow2(b.len()),
    decreases b.len(),
{
    lemma_pow2_small();
    if b.len() > 0 {
        let t = b.skip(1);
        assert forall|i: int| 0 <= i < t.len() implies 0 <= #[trigger] t[i] <= 1 by {
            assert(t[i] == b[i + 1]);
        }
        lemma_from_bits_bound(t);
        lemma_pow2_step(t.len());
    }
}

/// The bits of an index, one more at the high end.
pub proof fn lemma_bits_push(p: int, n: nat)
    requires
        0 <= p < pow2(n),
    ensures
        bits(p, n + 1) == bits(p, n).push(0),
        bits(p + pow2(n), n + 1) == bits(p, n).push(1),
        all_bits(bits(p, n)),
    decreases n,
{
    lemma_pow2_small();
    lemma_pow2_step(n);
    if n == 0 {
        assert(bits(p, 0) =~= Seq::<int>::empty());
        assert(bits(p / 2, 0) =~= Seq::<int>::empty());
        assert(bits((p + 1) / 2, 0) =~= Seq::<int>::empty());
        assert(bits(p, 1) =~= seq![p % 2]);
        assert(bits(p + 1, 1) =~= seq![(p + 1) % 2]);
        assert(bits(p, 0).push(0) =~= seq![0int]);
        assert(bits(p, 0).push(1) =~= seq![1int]);
    } else {
        let m = (n - 1) as nat;
        lemma_pow2_step(m);
        lemma_bits_push(p / 2, m);
        assert((p + pow2(n)) / 2 == p / 2 + pow2(m));
        assert((p + pow2(n)) % 2 == p % 2);
        assert(bits(p, n + 1) =~= bits(p, n).push(0));
        assert(bits(p + pow2(n), n + 1) =~= bits(p, n).push(1));
        let b = bits(p, n);
        let t = bits(p / 2, m);
        lemma_bits_len(p / 2, m);
        assert forall|i: int| 0 <= i < b.len() implies 0 <= #[trigger] b[i] <= 1 by {
            if i > 0 {
                assert(b[i] == t[i - 1]);
            }
        }
    }
}

/// The bits of an index give it back.
pub proof fn lemma_from_bits_of_bits(p: int, n: nat)
    requires
        0 <= p < pow2(n),
    ensures
        from_bits(bits(p, n)) == p,
    decreases n,
{
    lemma_pow2_small();
    if n > 0 {
        lemma_pow2_step((n - 1) as nat);
        lemma_from_bits_of_bits(p / 2, (n - 1) as nat);
        assert(bits(p, n).skip(1) =~= bits(p / 2, (n - 1) as nat));
    }
}

/// The bit at a place of an index.
pub proof fn lemma_bit(p: int, n: nat, i: int)
    requires
        0 <= p < pow2(n),
        0 <= i < n,
    ensures
        bits(p, n)[i] == (p / pow2(i as nat) as int) % 2,
    decreases n,
{
    lemma_bits_len(p, n);
    lemma_pow2_small();
    if i == 0 {
        assert(p / 1 == p);
    } else {
        let m = (n - 1) as nat;
        lemma_pow2_step(m);
        lemma_bit(p / 2, m, i - 1);
        lemma_pow2_step((i - 1) as nat);
        let d = pow2((i - 1) as nat) as int;
        vstd::arithmetic::div_mod::lemma_div_denominator(p, 2, d);
        assert(bits(p, n)[i] == bits(p / 2, m)[i - 1]);
    }
}

/// The entries at the given places.
pub open spec fn pick<T>(s: Seq<T>, places: Seq<int>) -> Seq<T> {
    Seq::new(places.len(), |k: int| s[places[k]])
}

/// Increasing places below `n`.
pub open spec fn places_in(places: Seq<int>, n: nat) -> bool {
    &&& forall|k: int| 0 <= k < places.len() ==> 0 <= #[trigger] places[k] < n
    &&& forall|j: int, k: int|
        0 <= j < k < places.len() ==> #[trigger] places[j] < #[trigger] places[k]
}

/// The index that the bits at the given places make up.
pub open spec fn projected(p: int, n: nat, places: Seq<int>) -> int {
    from_bits(pick(bits(p, n), places))
}

/// A table over the index bits at the given places, as a table over all `n` index bits.
pub open spec fn spread(table: Seq<int>, places: Seq<int>, n: nat) -> Seq<int> {
    Seq::new(pow2(n), |p: int| table[projected(p, n, places)])
}

pub proof fn lemma_projected_bound(p: int, n: nat, places: Seq<int>)
    requires
        0 <= p < pow2(n),
        places_in(places, n),
    ensures
        0 <= projected(p, n, places) < pow2(places.len()),
{
    lemma_bits_push(p, n);
    lemma_bits_len(p, n);
    let b = pick(bits(p, n), places);
    assert forall|k: int| 0 <= k < b.len() implies 0 <= #[trigger] b[k] <= 1 by {
        assert(b[k] == bits(p, n)[places[k]]);
    }
    lemma_from_bits_bound(b);
}

/// The value of a spread table is the value of the table at the selected coordinates.
pub proof fn lemma_mle_spread(table: Seq<int>, places: Seq<int>, n: nat, r: Seq<int>)
    requires
        r.len() == n,
        places_in(places, n),
        table.len() == pow2(places.len()),
    ensures
        mle(spread(table, places, n), r) == mle(table, pick(r, places)),
    decreases n,
{
    let wide = spread(table, places, n);
    lemma_pow2_small();
    if n == 0 {
        if places.len() > 0 {
            assert(0 <= places[0] < n);
        }
        assert(pick(r, places) =~= r);
        assert(pick(bits(0, 0), places) =~= Seq::<int>::empty());
        assert(wide =~= table);
    } else {
        let m = (n - 1) as nat;
        let half = pow2(m) as int;
        let z = r.drop_last();
        let x = r.last();
        lemma_pow2_step(m);
        assert(r =~= z.push(x));
        lemma_mle_fold_high(wide, x, z);
        let folded = fold_high(wide, x);
        if places.len() == 0 || places.last() != m {
            assert forall|k: int| 0 <= k < places.len() implies 0 <= #[trigger] places[k] < m by {
                if k < places.len() - 1 {
                    assert(places[k] < places[places.len() - 1]);
                }
            }
            assert forall|p: int| 0 <= p < half implies #[trigger] folded[p] == spread(
                table,
                places,
                m,
            )[p] by {
                lemma_bits_push(p, m);
                lemma_bits_len(p, m);
                assert(pick(bits(p, n), places) =~= pick(bits(p, m), places));
                assert(pick(bits(p + half, n), places) =~= pick(bits(p, m), places));
                assert(wide[p] == wide[p + half]);
                assert(x * 0 == 0) by (nonlinear_arith);
            }
            assert(folded =~= spread(table, places, m));
            lemma_mle_spread(table, places, m, z);
            assert(pick(r, places) =~= pick(z, places));
        } else {
            let fewer = places.drop_last();
            let smaller = fold_high(table, x);
            lemma_pow2_step(fewer.len());
            assert forall|k: int| 0 <= k < fewer.len() implies 0 <= #[trigger] fewer[k] < m by {
                assert(places[k] < places[places.len() - 1]);
            }
            assert forall|j: int, k: int| 0 <= j < k < fewer.len() implies #[trigger] fewer[j]
                < #[trigger] fewer[k] by {
                assert(places[j] < places[k]);
            }
            assert forall|p: int| 0 <= p < half implies #[trigger] folded[p] == spread(
                smaller,
                fewer,
                m,
            )[p] by {
                lemma_bits_push(p, m);
                lemma_bits_len(p, m);
                let b = pick(bits(p, m), fewer);
                assert(pick(bits(p, n), places) =~= b.push(0));
                assert(pick(bits(p + half, n), places) =~= b.push(1));
                lemma_from_bits_push(b, 0);
                lemma_from_bits_push(b, 1);
                lemma_projected_bound(p, m, fewer);
                let w = pow2(b.len()) as int;
                assert(0 * w == 0 && 1 * w == w) by (nonlinear_arith);
            }
            assert(folded =~= spread(smaller, fewer, m));
            lemma_mle_spread(smaller, fewer, m, z);
            let inner_point = pick(z, fewer);
            lemma_mle_fold_high(table, x, inner_point);
            assert(pick(r, places) =~= inner_point.push(x));
        }
    }
}

} // verus!
