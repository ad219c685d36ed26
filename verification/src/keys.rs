//! The keys of a hash map in order.
use crate::field::Fr;
use crate::math::{lemma_sum_ext, lemma_sum_gap, sum_to};
use std::collections::HashMap;
use vstd::prelude::*;

verus! {

broadcast use vstd::std_specs::hash::group_hash_axioms;

/// `slice::sort_unstable` on machine words: the same elements in non-decreasing order.
#[verifier::external_body]
pub(crate) fn sort_words(v: &mut Vec<usize>)
    ensures
        final(v)@.to_multiset() == old(v)@.to_multiset(),
        forall|i: int, j: int| 0 <= i <= j < final(v)@.len() ==> final(v)@[i] <= final(v)@[j],
{
    v.sort_unstable();
}

/// The words are strictly increasing.
pub open spec fn increasing(keys: Seq<usize>) -> bool {
    forall|i: int, j: int| 0 <= i < j < keys.len() ==> keys[i] < keys[j]
}

/// The keys of a map, in order.
pub fn sorted_keys(map: &HashMap<usize, Fr>) -> (keys: Vec<usize>)
    ensures
        increasing(keys@),
        forall|k: usize| #[trigger] keys@.contains(k) <==> map@.contains_key(k),
        keys@.len() == map@.len(),
{
    let mut keys: Vec<usize> = Vec::new();
    for k in iter: map.keys()
        invariant
            keys@ == iter.seq().unref().take(iter.index() as int),
            iter.seq().unref().to_set() == map@.dom(),
            iter.seq().no_duplicates(),
            iter.seq().len() == map@.dom().len(),
            iter.index() == iter.seq().len() ==> keys@ =~= iter.seq().unref() && keys@.to_set()
                == map@.dom(),
    {
        keys.push(*k);
        assert(iter.index() + 1 == iter.seq().len() ==> keys@ =~= iter.seq().unref());
    }
    let ghost found = keys@;
    sort_words(&mut keys);
    proof {
        found.lemma_multiset_has_no_duplicates();
        keys@.lemma_multiset_has_no_duplicates_conv();
        assert forall|k: usize| #[trigger] keys@.contains(k) <==> map@.contains_key(k) by {
            vstd::seq_lib::to_multiset_contains(found, k);
            vstd::seq_lib::to_multiset_contains(keys@, k);
            assert(found.to_set().contains(k) == map@.dom().contains(k));
        }
        assert forall|i: int, j: int| 0 <= i < j < keys@.len() implies keys@[i] < keys@[j] by {
            assert(keys@[i] <= keys@[j]);
            assert(keys@[i] != keys@[j]);
        }
        vstd::seq_lib::to_multiset_len(found);
        vstd::seq_lib::to_multiset_len(keys@);
    }
    keys
}

/// A sum whose terms vanish off the keys is the sum over the keys.
pub proof fn lemma_sum_support(f: spec_fn(int) -> int, keys: Seq<usize>, n: int)
    requires
        0 <= n,
        increasing(keys),
        forall|i: int| 0 <= i < keys.len() ==> keys[i] < n,
        forall|p: int| 0 <= p < n && !keys.contains(p as usize) ==> #[trigger] f(p) == 0,
        n <= usize::MAX + 1,
    ensures
        sum_to(f, n) == sum_to(|i: int| f(keys[i] as int), keys.len() as int),
    decreases keys.len(),
{
    let g = |i: int| f(keys[i] as int);
    if keys.len() == 0 {
        lemma_sum_gap(f, 0, n);
    } else {
        let rest = keys.drop_last();
        let last = keys.last() as int;
        assert forall|p: int| last + 1 <= p < n implies #[trigger] f(p) == 0 by {
            if keys.contains(p as usize) {
                let i = choose|i: int| 0 <= i < keys.len() && keys[i] == p as usize;
                if i < keys.len() - 1 {
                    assert(keys[i] < keys[keys.len() - 1]);
                }
            }
        }
        lemma_sum_gap(f, last + 1, n);
        assert forall|p: int| 0 <= p < last && !rest.contains(p as usize) implies #[trigger] f(p)
            == 0 by {
            if keys.contains(p as usize) {
                let i = choose|i: int| 0 <= i < keys.len() && keys[i] == p as usize;
                assert(i < keys.len() - 1);
                assert(rest[i] == p as usize);
            }
        }
        assert forall|i: int| 0 <= i < rest.len() implies rest[i] < last by {
            assert(keys[i] < keys[keys.len() - 1]);
        }
        lemma_sum_support(f, rest, last);
        lemma_sum_ext(|i: int| f(rest[i] as int), g, rest.len() as int);
    }
}

} // verus!
