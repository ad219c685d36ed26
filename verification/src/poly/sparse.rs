//! Sparse multilinear polynomials and selection polynomials.
use crate::field::{lemma_fr_range, lemma_modulus_bounds, modulus, vals, CryptoField, Fr};
use crate::keys::{increasing, lemma_sum_support, sorted_keys};
use crate::math::{
    cong, lemma_cong_add, lemma_cong_mul, lemma_div_mod, lemma_div_mod_unique, lemma_pow2_mono,
    lemma_pow2_small, lemma_pow2_step, lemma_reduced, lemma_sum_blocks, lemma_sum_ext,
    lemma_sum_single, lemma_sum_zero, product_to, sum_to, two_to,
};
use crate::mle::{bits, block, eq_weight, lemma_eq_low, lemma_mle_low, mle};
use crate::poly::dense::DenseMLPoly;
use std::collections::{HashMap, VecDeque};
use vstd::arithmetic::power2::pow2;
use vstd::prelude::*;

verus! {

broadcast use vstd::std_specs::hash::group_hash_axioms;

/// The polynomial that is one where an input position meets the table position that it selects.
#[derive(Debug)]
pub struct SelectionPolynomial {
    /// The number of variables of an input position.
    pub input_num_vars: usize,
    /// The number of variables of a table position.
    pub table_num_vars: usize,
    /// Pairs of an input position and the table position that it selects.
    pub selection: Vec<(usize, usize)>,
}

/// The index of a pair: the input position in the low bits, the table position above it.
pub open spec fn pair_index(pair: (usize, usize), input_num_vars: nat) -> int {
    pair.0 + pair.1 * pow2(input_num_vars)
}

/// A pair among `selection[..count]` has the index `p`.
pub open spec fn selected(
    selection: Seq<(usize, usize)>,
    input_num_vars: nat,
    count: int,
    p: int,
) -> bool {
    exists|i: int| 0 <= i < count && pair_index(#[trigger] selection[i], input_num_vars) == p
}

impl Clone for SelectionPolynomial {
    fn clone(&self) -> (r: SelectionPolynomial)
        ensures
            r.input_num_vars == self.input_num_vars,
            r.table_num_vars == self.table_num_vars,
            r.selection@ == self.selection@,
    {
        let mut selection: Vec<(usize, usize)> = Vec::with_capacity(self.selection.len());
        let mut i: usize = 0;
        while i < self.selection.len()
            invariant
                i <= self.selection@.len(),
                selection@ == self.selection@.take(i as int),
            decreases self.selection.len() - i,
        {
            selection.push(self.selection[i]);
            i += 1;
        }
        assert(selection@ =~= self.selection@);
        SelectionPolynomial {
            input_num_vars: self.input_num_vars,
            table_num_vars: self.table_num_vars,
            selection,
        }
    }
}

impl SelectionPolynomial {
    pub fn new(
        input_num_vars: usize,
        table_num_vars: usize,
        selection: Vec<(usize, usize)>,
    ) -> (r: SelectionPolynomial)
        ensures
            r.input_num_vars == input_num_vars,
            r.table_num_vars == table_num_vars,
            r.selection@ == selection@,
    {
        SelectionPolynomial { input_num_vars, table_num_vars, selection }
    }

    /// The indices of all the pairs are machine words.
    pub open spec fn indexable(&self) -> bool {
        &&& self.input_num_vars < usize::BITS
        &&& self.input_num_vars + self.table_num_vars <= usize::MAX
        &&& forall|i: int|
            0 <= i < self.selection@.len() ==> pair_index(
                #[trigger] self.selection@[i],
                self.input_num_vars as nat,
            ) <= usize::MAX
    }

    /// The polynomial in sparse form: a one at the index of every pair.
    pub fn to_sparse(self) -> (r: SparseMLPoly)
        requires
            self.indexable(),
        ensures
            r.stands_for(self.input_num_vars, self.table_num_vars, self.selection@),
    {
        let n = self.input_num_vars + self.table_num_vars;
        let shift = two_to(self.input_num_vars);
        let ghost k = self.input_num_vars as nat;
        let mut evaluations: HashMap<usize, Fr> = HashMap::new();
        let mut i: usize = 0;
        while i < self.selection.len()
            invariant
                i <= self.selection@.len(),
                self.indexable(),
                k == self.input_num_vars,
                shift == pow2(k),
                forall|p: usize| #[trigger]
                    evaluations@.contains_key(p) <==> selected(
                        self.selection@,
                        k,
                        i as int,
                        p as int,
                    ),
                forall|p: usize| #[trigger]
                    evaluations@.contains_key(p) ==> evaluations@[p]@ == 1,
            decreases self.selection.len() - i,
        {
            let (input_index, table_index) = self.selection[i];
            let ghost pair = self.selection@[i as int];
            proof {
                assert(pair_index(pair, k) <= usize::MAX);
                assert(table_index * shift >= 0) by (nonlinear_arith);
            }
            let index = input_index + table_index * shift;
            let ghost before = evaluations@;
            evaluations.insert(index, Fr::one());
            proof {
                assert forall|p: usize| #[trigger] evaluations@.contains_key(p) <==> selected(
                    self.selection@,
                    k,
                    i + 1,
                    p as int,
                ) by {
                    if p == index {
                        assert(pair_index(self.selection@[i as int], k) == p);
                    } else {
                        assert(before.contains_key(p) == evaluations@.contains_key(p));
                        if selected(self.selection@, k, i + 1, p as int) {
                            let j = choose|j: int|
                                0 <= j < i + 1 && pair_index(#[trigger] self.selection@[j], k)
                                    == p;
                            assert(j < i);
                        }
                    }
                }
            }
            i += 1;
        }
        let mut sparse = SparseMLPoly::new(n, evaluations, VecDeque::new(), self);
        sparse.build_sorted_indices();
        sparse
    }
}

/// A multilinear polynomial held as its values at the points where it may be non-zero.
#[derive(Debug)]
pub struct SparseMLPoly {
    /// The number of variables.
    pub n: usize,
    /// The values, by index; everywhere else the polynomial is zero on the boolean points.
    pub evaluations: HashMap<usize, Fr>,
    /// The indices in order, once they have been built.
    pub indices: VecDeque<usize>,
    /// The selection that the polynomial comes from.
    pub selection: SelectionPolynomial,
}

/// The value at index `p`.
pub open spec fn lookup(map: Map<usize, Fr>, p: int) -> int {
    if map.contains_key(p as usize) {
        map[p as usize]@
    } else {
        0
    }
}

/// The table that a map of values stands for.
pub open spec fn map_table(map: Map<usize, Fr>, n: nat) -> Seq<int> {
    Seq::new(pow2(n), |p: int| lookup(map, p))
}

/// The weight that a point gives an index, and the index with the point's variables taken off.
fn weigh(point: &[Fr], index: usize) -> (r: (Fr, usize))
    ensures
        r.0@ == eq_weight(vals(point@), index as int) % modulus(),
        r.1 == index as int / pow2(point@.len()) as int,
{
    let one = Fr::one();
    let ghost z = vals(point@);
    let mut acc = one;
    let mut rest = index;
    let mut j: usize = 0;
    proof {
        lemma_pow2_small();
        assert(z.skip(0) =~= z);
        let e = eq_weight(z, index as int);
        assert(1 * e == e) by (nonlinear_arith);
    }
    while j < point.len()
        invariant
            j <= point@.len(),
            z == vals(point@),
            one@ == 1,
            rest == index as int / pow2(j as nat) as int,
            cong(acc@ * eq_weight(z.skip(j as int), rest as int), eq_weight(z, index as int)),
        decreases point.len() - j,
    {
        let x = point[j];
        let factor = if rest % 2 == 1 {
            x
        } else {
            one.sub(x)
        };
        let next = acc.mul(factor);
        proof {
            let t = z.skip(j as int);
            assert(t[0] == x@);
            assert(t.skip(1) =~= z.skip(j + 1));
            let c = if rest % 2 == 1 {
                x@
            } else {
                1 - x@
            };
            lemma_reduced(1 - x@);
            assert(cong(factor@, c));
            lemma_cong_mul(acc@, acc@, factor@, c);
            lemma_reduced(acc@ * factor@);
            let w = eq_weight(z.skip(j + 1), (rest / 2) as int);
            lemma_cong_mul(next@, acc@ * c, w, w);
            let a = acc@;
            assert((a * c) * w == a * (c * w)) by (nonlinear_arith);
            assert(eq_weight(t, rest as int) == c * w);
            lemma_pow2_step(j as nat);
            vstd::arithmetic::div_mod::lemma_div_denominator(
                index as int,
                pow2(j as nat) as int,
                2,
            );
            assert(2 * pow2(j as nat) == pow2(j as nat) * 2);
        }
        acc = next;
        rest = rest / 2;
        j += 1;
    }
    proof {
        assert(eq_weight(z.skip(point@.len() as int), rest as int) == 1);
        assert(acc@ * 1 == acc@) by (nonlinear_arith);
        lemma_fr_range(acc);
    }
    (acc, rest)
}

impl Clone for SparseMLPoly {
    fn clone(&self) -> (r: SparseMLPoly)
        ensures
            r.n == self.n,
            r.evaluations@ == self.evaluations@,
            r.indices@ == self.indices@,
            r.selection.input_num_vars == self.selection.input_num_vars,
            r.selection.table_num_vars == self.selection.table_num_vars,
            r.selection.selection@ == self.selection.selection@,
    {
        let mut indices: VecDeque<usize> = VecDeque::new();
        let mut i: usize = 0;
        while i < self.indices.len()
            invariant
                i <= self.indices@.len(),
                indices@ == self.indices@.take(i as int),
            decreases self.indices@.len() - i,
        {
            indices.push_back(self.indices[i]);
            i += 1;
        }
        assert(indices@ =~= self.indices@);
        SparseMLPoly {
            n: self.n,
            evaluations: self.evaluations.clone(),
            indices,
            selection: self.selection.clone(),
        }
    }
}

impl SparseMLPoly {
    /// The dense table of the polynomial.
    pub open spec fn table(&self) -> Seq<int> {
        map_table(self.evaluations@, self.n as nat)
    }

    /// All indices lie in the polynomial's domain, and the domain can be indexed by words.
    pub open spec fn well_formed(&self) -> bool {
        &&& self.n <= usize::BITS
        &&& forall|p: usize| #[trigger]
            self.evaluations@.contains_key(p) ==> p < pow2(self.n as nat)
    }

    /// The list of indices holds the keys of the values, in order.
    pub open spec fn indices_sorted(&self) -> bool {
        &&& increasing(self.indices@)
        &&& forall|p: usize| #[trigger]
            self.indices@.contains(p) <==> self.evaluations@.contains_key(p)
    }

    /// The polynomial is one at the index of every pair of the selection and zero elsewhere.
    pub open spec fn stands_for(
        &self,
        input_num_vars: usize,
        table_num_vars: usize,
        selection: Seq<(usize, usize)>,
    ) -> bool {
        &&& self.n == input_num_vars + table_num_vars
        &&& forall|p: usize| #[trigger]
            self.evaluations@.contains_key(p) <==> selected(
                selection,
                input_num_vars as nat,
                selection.len() as int,
                p as int,
            )
        &&& forall|p: usize| #[trigger]
            self.evaluations@.contains_key(p) ==> self.evaluations@[p]@ == 1
        &&& self.indices_sorted()
        &&& self.selection.input_num_vars == input_num_vars
        &&& self.selection.table_num_vars == table_num_vars
        &&& self.selection.selection@ == selection
    }

    /// The two polynomials come from the same selection.
    pub open spec fn same_selection(&self, other: &SparseMLPoly) -> bool {
        &&& self.selection.input_num_vars == other.selection.input_num_vars
        &&& self.selection.table_num_vars == other.selection.table_num_vars
        &&& self.selection.selection@ == other.selection.selection@
    }

    pub fn new(
        n: usize,
        evaluations: HashMap<usize, Fr>,
        indices: VecDeque<usize>,
        selection: SelectionPolynomial,
    ) -> (r: SparseMLPoly)
        ensures
            r.n == n,
            r.evaluations@ == evaluations@,
            r.indices@ == indices@,
            r.selection == selection,
    {
        SparseMLPoly { n, evaluations, indices, selection }
    }

    /// Builds the ordered list of indices.
    pub fn build_sorted_indices(&mut self)
        ensures
            final(self).indices_sorted(),
            final(self).n == old(self).n,
            final(self).evaluations == old(self).evaluations,
            final(self).selection == old(self).selection,
    {
        let keys = sorted_keys(&self.evaluations);
        let mut indices: VecDeque<usize> = VecDeque::new();
        let mut i: usize = 0;
        while i < keys.len()
            invariant
                i <= keys@.len(),
                indices@ == keys@.take(i as int),
            decreases keys.len() - i,
        {
            indices.push_back(keys[i]);
            i += 1;
        }
        assert(indices@ =~= keys@);
        self.indices = indices;
    }

    /// The number of values held.
    pub fn len(&self) -> (r: usize)
        ensures
            r == self.evaluations@.len(),
    {
        self.evaluations.len()
    }

    pub fn is_empty(&self) -> (r: bool)
        ensures
            r == (self.evaluations@.len() == 0),
    {
        self.evaluations.len() == 0
    }

    /// Fixes the first variables, those of the lowest index bits, to the given values. Values that
    /// fall on the same index are added up and kept even where they cancel.
    pub fn fix_variables(&self, partial_point: &[Fr]) -> (r: SparseMLPoly)
        requires
            self.well_formed(),
            partial_point@.len() <= self.n,
        ensures
            r.well_formed(),
            r.n == self.n - partial_point@.len(),
            r.indices@.len() == 0,
            r.same_selection(self),
            forall|q: usize| #[trigger]
                r.evaluations@.contains_key(q) <==> exists|p: usize| #[trigger]
                    self.evaluations@.contains_key(p) && q == p as int / pow2(
                        partial_point@.len(),
                    ) as int,
            forall|q: int|
                0 <= q < pow2(r.n as nat) ==> #[trigger] r.table()[q] == mle(
                    self.table(),
                    vals(partial_point@) + bits(q, r.n as nat),
                ) % modulus(),
    {
        let keys = sorted_keys(&self.evaluations);
        let dim = partial_point.len();
        let ghost z = vals(partial_point@);
        let ghost d = pow2(dim as nat) as int;
        let ghost map = self.evaluations@;
        let ghost c = |q: int, j: int|
            if keys@[j] as int / d == q {
                lookup(map, keys@[j] as int) * eq_weight(z, keys@[j] as int)
            } else {
                0
            };
        let mut result: HashMap<usize, Fr> = HashMap::new();
        let mut i: usize = 0;
        proof {
            vstd::arithmetic::power2::lemma_pow2_pos(dim as nat);
        }
        while i < keys.len()
            invariant
                i <= keys@.len(),
                dim == partial_point@.len(),
                z == vals(partial_point@),
                d == pow2(dim as nat),
                d > 0,
                map == self.evaluations@,
                forall|k: usize| #[trigger] keys@.contains(k) <==> map.contains_key(k),
                c == (|q: int, j: int|
                    if keys@[j] as int / d == q {
                        lookup(map, keys@[j] as int) * eq_weight(z, keys@[j] as int)
                    } else {
                        0
                    }),
                forall|q: usize| #[trigger]
                    result@.contains_key(q) <==> exists|j: int|
                        0 <= j < i && q == (#[trigger] keys@[j]) as int / d,
                forall|q: usize|
                    cong(
                        #[trigger] lookup(result@, q as int),
                        sum_to(|j: int| c(q as int, j), i as int),
                    ),
            decreases keys.len() - i,
        {
            let key = keys[i];
            assert(keys@.contains(key));
            let value: Fr = match self.evaluations.get(&key) {
                Some(v) => *v,
                None => Fr::zero(),
            };
            let (weight, q) = weigh(partial_point, key);
            let term = weight.mul(value);
            let ghost before = result@;
            let old_value: Fr = match result.get(&q) {
                Some(v) => *v,
                None => Fr::zero(),
            };
            let new_value = old_value.add(term);
            result.insert(q, new_value);
            proof {
                let e = eq_weight(z, key as int);
                assert(value@ == lookup(map, key as int));
                lemma_reduced(e);
                lemma_cong_mul(weight@, e, value@, value@);
                lemma_reduced(weight@ * value@);
                assert(e * value@ == value@ * e) by (nonlinear_arith);
                assert(cong(term@, c(q as int, i as int)));
                lemma_reduced(old_value@ + term@);
                assert(old_value@ == lookup(before, q as int));
                assert forall|p: usize|
                    cong(
                        #[trigger] lookup(result@, p as int),
                        sum_to(|j: int| c(p as int, j), i + 1),
                    ) by {
                    let f = |j: int| c(p as int, j);
                    assert(sum_to(f, i + 1) == sum_to(f, i as int) + f(i as int));
                    assert(cong(lookup(before, p as int), sum_to(f, i as int)));
                    if p == q {
                        lemma_cong_add(
                            old_value@,
                            sum_to(f, i as int),
                            term@,
                            c(q as int, i as int),
                        );
                    } else {
                        assert(lookup(result@, p as int) == lookup(before, p as int));
                    }
                }
                assert forall|p: usize| #[trigger] result@.contains_key(p) <==> exists|j: int|
                    0 <= j < i + 1 && p == (#[trigger] keys@[j]) as int / d by {
                    if p == q {
                        assert(p == keys@[i as int] as int / d);
                    } else {
                        assert(result@.contains_key(p) == before.contains_key(p));
                        if exists|j: int| 0 <= j < i + 1 && p == (#[trigger] keys@[j]) as int / d {
                            let j = choose|j: int|
                                0 <= j < i + 1 && p == (#[trigger] keys@[j]) as int / d;
                            assert(j < i);
                        }
                    }
                }
            }
            i += 1;
        }
        let r = SparseMLPoly::new(
            self.n - dim,
            result,
            VecDeque::new(),
            self.selection.clone(),
        );
        proof {
            let m = r.n as nat;
            vstd::arithmetic::power2::lemma_pow2_adds(dim as nat, m);
            assert(d * pow2(m) == pow2(self.n as nat));
            lemma_word_bound(self.n as nat);
            assert forall|q: usize| #[trigger] r.evaluations@.contains_key(q) implies q < pow2(
                m,
            ) by {
                let j = choose|j: int| 0 <= j < keys@.len() && q == (#[trigger] keys@[j]) as int / d;
                assert(keys@.contains(keys@[j]));
                lemma_div_mod(keys@[j] as int, d);
                assert(q < pow2(m)) by (nonlinear_arith)
                    requires
                        q * d <= keys@[j],
                        keys@[j] < d * pow2(m),
                        d > 0,
                ;
            }
            assert forall|q: usize| #[trigger] r.evaluations@.contains_key(q) <==> exists|p: usize|
             #[trigger]
                self.evaluations@.contains_key(p) && q == p as int / d by {
                if r.evaluations@.contains_key(q) {
                    let j = choose|j: int|
                        0 <= j < keys@.len() && q == (#[trigger] keys@[j]) as int / d;
                    assert(keys@.contains(keys@[j]));
                    assert(self.evaluations@.contains_key(keys@[j]));
                }
                if exists|p: usize| #[trigger]
                    self.evaluations@.contains_key(p) && q == p as int / d {
                    let p = choose|p: usize| #[trigger]
                        self.evaluations@.contains_key(p) && q == p as int / d;
                    assert(keys@.contains(p));
                    let j = choose|j: int| 0 <= j < keys@.len() && keys@[j] == p;
                    assert(q == keys@[j] as int / d);
                }
            }
            assert forall|q: int| 0 <= q < pow2(m) implies #[trigger] r.table()[q] == mle(
                self.table(),
                z + bits(q, m),
            ) % modulus() by {
                lemma_fold_sum(map, keys@, z, self.n as nat, q);
                let f = |j: int| c(q, j);
                lemma_pow2_mono(m, self.n as nat);
                let word = q as usize;
                assert(word as int == q);
                assert(cong(lookup(result@, word as int), sum_to(f, keys@.len() as int)));
                lemma_sum_ext(
                    f,
                    |j: int|
                        if keys@[j] as int / d == q {
                            lookup(map, keys@[j] as int) * eq_weight(z, keys@[j] as int)
                        } else {
                            0
                        },
                    keys@.len() as int,
                );
                lemma_lookup_range(result@, q);
            }
        }
        r
    }

    /// Multiplies the polynomial by a scalar. Only non-zero values are kept.
    pub fn mul_by_scalar(&self, scalar: Fr) -> (r: SparseMLPoly)
        ensures
            r.n == self.n,
            r.indices@.len() == 0,
            r.same_selection(self),
            forall|p: usize| #[trigger]
                r.evaluations@.contains_key(p) <==> self.evaluations@.contains_key(p) && (lookup(
                    self.evaluations@,
                    p as int,
                ) * scalar@) % modulus() != 0,
            forall|p: usize| #[trigger]
                lookup(r.evaluations@, p as int) == (lookup(self.evaluations@, p as int) * scalar@)
                    % modulus(),
    {
        let zero = Fr::zero();
        let ghost map = self.evaluations@;
        proof {
            lemma_modulus_bounds();
            vstd::arithmetic::div_mod::lemma_small_mod(0, modulus() as nat);
            assert(0 * scalar@ == 0) by (nonlinear_arith);
        }
        if scalar.equals(&zero) {
            proof {
                assert forall|p: usize|
                    (#[trigger] lookup(map, p as int) * scalar@) % modulus() == 0 by {
                    let v = lookup(map, p as int);
                    assert(v * 0 == 0) by (nonlinear_arith);
                }
            }
            return SparseMLPoly::new(
                self.n,
                HashMap::new(),
                VecDeque::new(),
                self.selection.clone(),
            );
        }
        let keys = sorted_keys(&self.evaluations);
        let mut result: HashMap<usize, Fr> = HashMap::new();
        let mut i: usize = 0;
        while i < keys.len()
            invariant
                i <= keys@.len(),
                zero@ == 0,
                map == self.evaluations@,
                increasing(keys@),
                forall|k: usize| #[trigger] keys@.contains(k) <==> map.contains_key(k),
                forall|p: usize| #[trigger]
                    result@.contains_key(p) <==> keys@.take(i as int).contains(p) && (lookup(
                        map,
                        p as int,
                    ) * scalar@) % modulus() != 0,
                forall|p: usize| #[trigger]
                    result@.contains_key(p) ==> result@[p]@ == (lookup(map, p as int) * scalar@)
                        % modulus(),
            decreases keys.len() - i,
        {
            let key = keys[i];
            assert(keys@.contains(key));
            let value: Fr = match self.evaluations.get(&key) {
                Some(v) => *v,
                None => zero,
            };
            let product = value.mul(scalar);
            let ghost before = result@;
            proof {
                assert(value@ == lookup(map, key as int));
                let longer = keys@.take(i + 1);
                assert forall|p: usize| #[trigger] longer.contains(p) <==> keys@.take(
                    i as int,
                ).contains(p) || p == key by {
                    lemma_take_contains(keys@, i as int, p);
                }
            }
            if !product.equals(&zero) {
                result.insert(key, product);
            }
            proof {
                assert forall|p: usize| #[trigger] result@.contains_key(p) <==> keys@.take(
                    i + 1,
                ).contains(p) && (lookup(map, p as int) * scalar@) % modulus() != 0 by {
                    assert(keys@.take(i + 1).contains(p) <==> keys@.take(i as int).contains(p)
                        || p == key);
                    assert(p != key ==> before.contains_key(p) == result@.contains_key(p));
                    if p == key && before.contains_key(p) {
                        lemma_increasing_unique(keys@, i as int);
                    }
                }
            }
            i += 1;
        }
        proof {
            assert(keys@.take(keys@.len() as int) =~= keys@);
        }
        SparseMLPoly::new(self.n, result, VecDeque::new(), self.selection.clone())
    }

    /// Adds two polynomials. Only non-zero values are kept.
    pub fn add(&self, other: &SparseMLPoly) -> (r: SparseMLPoly)
        requires
            self.n == other.n,
        ensures
            r.n == self.n,
            r.indices@.len() == 0,
            r.same_selection(self),
            forall|p: usize| #[trigger]
                r.evaluations@.contains_key(p) <==> (lookup(self.evaluations@, p as int) + lookup(
                    other.evaluations@,
                    p as int,
                )) % modulus() != 0,
            forall|p: usize| #[trigger]
                lookup(r.evaluations@, p as int) == (lookup(self.evaluations@, p as int) + lookup(
                    other.evaluations@,
                    p as int,
                )) % modulus(),
    {
        let zero = Fr::zero();
        let ghost a = self.evaluations@;
        let ghost b = other.evaluations@;
        let mut result: HashMap<usize, Fr> = HashMap::new();
        let left = sorted_keys(&self.evaluations);
        let right = sorted_keys(&other.evaluations);
        let mut i: usize = 0;
        while i < left.len()
            invariant
                i <= left@.len(),
                zero@ == 0,
                a == self.evaluations@,
                b == other.evaluations@,
                forall|k: usize| #[trigger] left@.contains(k) <==> a.contains_key(k),
                forall|p: usize| #[trigger]
                    result@.contains_key(p) <==> left@.take(i as int).contains(p) && (lookup(
                        a,
                        p as int,
                    ) + lookup(b, p as int)) % modulus() != 0,
                forall|p: usize| #[trigger]
                    result@.contains_key(p) ==> result@[p]@ == (lookup(a, p as int) + lookup(
                        b,
                        p as int,
                    )) % modulus(),
            decreases left.len() - i,
        {
            let key = left[i];
            let ghost before = result@;
            add_at(&mut result, key, &self.evaluations, &other.evaluations);
            proof {
                assert forall|p: usize| #[trigger] result@.contains_key(p) <==> left@.take(
                    i + 1,
                ).contains(p) && (lookup(a, p as int) + lookup(b, p as int)) % modulus() != 0 by {
                    lemma_take_contains(left@, i as int, p);
                    assert(p != key ==> before.contains_key(p) == result@.contains_key(p));
                }
            }
            i += 1;
        }
        proof {
            assert(left@.take(left@.len() as int) =~= left@);
        }
        let ghost first = result@;
        let mut i: usize = 0;
        proof {
            assert(right@.take(0) =~= Seq::<usize>::empty());
        }
        while i < right.len()
            invariant
                i <= right@.len(),
                zero@ == 0,
                a == self.evaluations@,
                b == other.evaluations@,
                forall|k: usize| #[trigger] left@.contains(k) <==> a.contains_key(k),
                forall|k: usize| #[trigger] right@.contains(k) <==> b.contains_key(k),
                forall|p: usize| #[trigger]
                    result@.contains_key(p) <==> (left@.contains(p) || right@.take(
                        i as int,
                    ).contains(p)) && (lookup(a, p as int) + lookup(b, p as int)) % modulus() != 0,
                forall|p: usize| #[trigger]
                    result@.contains_key(p) ==> result@[p]@ == (lookup(a, p as int) + lookup(
                        b,
                        p as int,
                    )) % modulus(),
            decreases right.len() - i,
        {
            let key = right[i];
            let ghost before = result@;
            add_at(&mut result, key, &self.evaluations, &other.evaluations);
            proof {
                assert forall|p: usize| #[trigger] result@.contains_key(p) <==> (left@.contains(p)
                    || right@.take(i + 1).contains(p)) && (lookup(a, p as int) + lookup(
                    b,
                    p as int,
                )) % modulus() != 0 by {
                    lemma_take_contains(right@, i as int, p);
                    assert(p != key ==> before.contains_key(p) == result@.contains_key(p));
                }
            }
            i += 1;
        }
        proof {
            assert(right@.take(right@.len() as int) =~= right@);
            lemma_modulus_bounds();
            vstd::arithmetic::div_mod::lemma_small_mod(0, modulus() as nat);
            assert forall|p: usize| #[trigger] result@.contains_key(p) <==> (lookup(a, p as int)
                + lookup(b, p as int)) % modulus() != 0 by {
                assert(left@.contains(p) <==> a.contains_key(p));
                assert(right@.contains(p) <==> b.contains_key(p));
            }
        }
        SparseMLPoly::new(self.n, result, VecDeque::new(), self.selection.clone())
    }

    /// The polynomial as a dense table.
    pub fn to_dense(&self) -> (r: DenseMLPoly)
        requires
            self.well_formed(),
            self.n < usize::BITS,
        ensures
            r.n == self.n,
            r.well_formed(),
            r.table() =~= self.table(),
    {
        let zero = Fr::zero();
        let size = two_to(self.n);
        let keys = sorted_keys(&self.evaluations);
        let ghost map = self.evaluations@;
        let mut evaluations = Fr::repeat(zero, size);
        let mut i: usize = 0;
        while i < keys.len()
            invariant
                i <= keys@.len(),
                zero@ == 0,
                self.well_formed(),
                size == pow2(self.n as nat),
                map == self.evaluations@,
                evaluations@.len() == size,
                forall|k: usize| #[trigger] keys@.contains(k) <==> map.contains_key(k),
                forall|p: usize|
                    p < size ==> (#[trigger] evaluations@[p as int])@ == (if keys@.take(
                        i as int,
                    ).contains(p) {
                        lookup(map, p as int)
                    } else {
                        0
                    }),
            decreases keys.len() - i,
        {
            let key = keys[i];
            assert(keys@.contains(key));
            let value: Fr = match self.evaluations.get(&key) {
                Some(v) => *v,
                None => zero,
            };
            let ghost before = evaluations@;
            evaluations.set(key, value);
            proof {
                assert forall|p: usize| p < size implies (#[trigger] evaluations@[p as int])@ == (
                if keys@.take(i + 1).contains(p) {
                    lookup(map, p as int)
                } else {
                    0
                }) by {
                    lemma_take_contains(keys@, i as int, p);
                    assert(p != key ==> evaluations@[p as int] == before[p as int]);
                }
            }
            i += 1;
        }
        let r = DenseMLPoly::new(self.n, evaluations);
        proof {
            assert(keys@.take(keys@.len() as int) =~= keys@);
            let t = r.table();
            assert forall|p: int| 0 <= p < size implies #[trigger] t[p] == self.table()[p] by {
                let w = p as usize;
                assert(evaluations@[w as int]@ == lookup(map, p));
            }
        }
        r
    }

    /// The polynomial's value at a point.
    pub fn evaluate_at_point(&self, point: &[Fr]) -> (r: Fr)
        requires
            self.well_formed(),
            point@.len() == self.n,
        ensures
            r@ == mle(self.table(), vals(point@)) % modulus(),
    {
        let fixed = self.fix_variables(point);
        let r: Fr = match fixed.evaluations.get(&0) {
            Some(v) => *v,
            None => Fr::zero(),
        };
        proof {
            lemma_pow2_small();
            let z = vals(point@);
            assert(z + bits(0, 0) =~= z);
            assert(fixed.table()[0] == mle(self.table(), z + bits(0, 0)) % modulus());
        }
        r
    }

    /// The dense list of values.
    pub fn evaluations(&self) -> (r: Vec<Fr>)
        requires
            self.well_formed(),
            self.n < usize::BITS,
        ensures
            vals(r@) =~= self.table(),
    {
        self.to_dense().evaluations
    }

    /// The value at one boolean point.
    pub fn index(&self, index: usize) -> (r: Fr)
        ensures
            r@ == lookup(self.evaluations@, index as int),
    {
        match self.evaluations.get(&index) {
            Some(v) => *v,
            None => Fr::zero(),
        }
    }

    /// The value at one boolean point, for change.
    pub fn index_mut(&mut self, index: usize) -> (r: &mut Fr)
        ensures
            (*r)@ == lookup(old(self).evaluations@, index as int),
            final(self).evaluations@ == old(self).evaluations@.insert(index, *final(r)),
            final(self).n == old(self).n,
            final(self).indices == old(self).indices,
            final(self).selection == old(self).selection,
    {
        self.evaluations.entry(index).or_insert(Fr::zero())
    }

    /// Splits the table positions of the selection into blocks of `block_size` bits. Block `i`
    /// selects, for each input position, bits `i * block_size ..` of its table position.
    pub fn split_into_blocks(&self, block_size: usize) -> (r: Vec<SparseMLPoly>)
        requires
            0 < block_size < usize::BITS,
            self.selection.table_num_vars <= usize::BITS,
            self.selection.table_num_vars > 0 ==> self.selection.input_num_vars < usize::BITS
                && forall|i: int, j: int|
                0 <= i < block_count(self.selection.table_num_vars as int, block_size as int)
                    && 0 <= j < self.selection.selection@.len() ==> pair_index(
                    #[trigger] block_pair(
                        self.selection.selection@[j],
                        self.selection.table_num_vars as int,
                        block_size as int,
                        i,
                    ),
                    self.selection.input_num_vars as nat,
                ) <= usize::MAX,
        ensures
            self.selection.table_num_vars == 0 ==> r@.len() == 1 && r@[0].n == self.n
                && r@[0].evaluations@ == self.evaluations@ && r@[0].indices@ == self.indices@
                && r@[0].same_selection(self),
            self.selection.table_num_vars > 0 ==> {
                &&& r@.len() == block_count(
                    self.selection.table_num_vars as int,
                    block_size as int,
                )
                &&& forall|i: int|
                    0 <= i < r@.len() ==> (#[trigger] r@[i]).stands_for(
                        self.selection.input_num_vars,
                        block_size,
                        Seq::new(
                            self.selection.selection@.len(),
                            |j: int|
                                block_pair(
                                    self.selection.selection@[j],
                                    self.selection.table_num_vars as int,
                                    block_size as int,
                                    i,
                                ),
                        ),
                    )
            },
    {
        let table_num_vars = self.selection.table_num_vars;
        let mut blocks: Vec<SparseMLPoly> = Vec::new();
        if table_num_vars == 0 {
            blocks.push(self.clone());
            return blocks;
        }
        let ghost pairs = self.selection.selection@;
        let ghost tv = table_num_vars as int;
        let ghost bs = block_size as int;
        let num_blocks = (table_num_vars + block_size - 1) / block_size;
        let mut i: usize = 0;
        while i < num_blocks
            invariant
                i <= num_blocks,
                0 < block_size < usize::BITS,
                0 < table_num_vars <= usize::BITS,
                tv == table_num_vars,
                bs == block_size,
                table_num_vars == self.selection.table_num_vars,
                num_blocks == block_count(tv, bs),
                pairs == self.selection.selection@,
                self.selection.input_num_vars < usize::BITS,
                forall|i: int, j: int|
                    0 <= i < num_blocks && 0 <= j < pairs.len() ==> pair_index(
                        #[trigger] block_pair(pairs[j], tv, bs, i),
                        self.selection.input_num_vars as nat,
                    ) <= usize::MAX,
                blocks@.len() == i,
                forall|k: int|
                    0 <= k < i ==> (#[trigger] blocks@[k]).stands_for(
                        self.selection.input_num_vars,
                        block_size,
                        Seq::new(pairs.len(), |j: int| block_pair(pairs[j], tv, bs, k)),
                    ),
            decreases num_blocks - i,
        {
            proof {
                lemma_block_offset(tv, bs, i as int);
            }
            let offset = i * block_size;
            let start = two_to(offset);
            let remaining = table_num_vars - offset;
            let this_block_vars = if remaining < block_size {
                remaining
            } else {
                block_size
            };
            let this_block_mod = two_to(this_block_vars);
            let mut selection: Vec<(usize, usize)> = Vec::new();
            let mut j: usize = 0;
            while j < self.selection.selection.len()
                invariant
                    j <= pairs.len(),
                    pairs == self.selection.selection@,
                    offset == i * bs,
                    start == pow2(offset as nat),
                    start > 0,
                    this_block_vars == (if tv - offset < bs {
                        tv - offset
                    } else {
                        bs
                    }),
                    this_block_mod == pow2(this_block_vars as nat),
                    this_block_mod > 0,
                    selection@ == Seq::new(
                        j as nat,
                        |j: int| block_pair(pairs[j], tv, bs, i as int),
                    ),
                decreases pairs.len() - j,
            {
                let (input_index, table_index) = self.selection.selection[j];
                selection.push((input_index, (table_index / start) % this_block_mod));
                j += 1;
            }
            let block = SelectionPolynomial::new(
                self.selection.input_num_vars,
                block_size,
                selection,
            );
            proof {
                assert forall|j: int| 0 <= j < selection@.len() implies pair_index(
                    #[trigger] block.selection@[j],
                    block.input_num_vars as nat,
                ) <= usize::MAX by {
                    assert(block.selection@[j] == block_pair(pairs[j], tv, bs, i as int));
                }
            }
            blocks.push(block.to_sparse());
            i += 1;
        }
        blocks
    }
}

/// The number of blocks of `block_size` bits that cover `table_num_vars` bits.
pub open spec fn block_count(table_num_vars: int, block_size: int) -> int {
    (table_num_vars + block_size - 1) / block_size
}

/// Bits `i * block_size ..` of a table position, `block_size` of them or as many as are left.
pub open spec fn block_digit(
    table_index: int,
    table_num_vars: int,
    block_size: int,
    i: int,
) -> int {
    let offset = i * block_size;
    let width = if table_num_vars - offset < block_size {
        table_num_vars - offset
    } else {
        block_size
    };
    (table_index / pow2(offset as nat) as int) % pow2(width as nat) as int
}

/// The pair that a block selects in place of a pair of the whole.
pub open spec fn block_pair(
    pair: (usize, usize),
    table_num_vars: int,
    block_size: int,
    i: int,
) -> (usize, usize) {
    (pair.0, block_digit(pair.1 as int, table_num_vars, block_size, i) as usize)
}

/// The sum of the first `count` digits of a table position, each at its place.
pub open spec fn digits_sum(
    table_index: int,
    table_num_vars: int,
    block_size: int,
    count: int,
) -> int {
    sum_to(
        |i: int|
            block_digit(table_index, table_num_vars, block_size, i) * pow2((i * block_size) as nat),
        count,
    )
}

proof fn lemma_block_offset(tv: int, bs: int, i: int)
    requires
        0 < bs,
        0 < tv,
        0 <= i < block_count(tv, bs),
    ensures
        0 <= i * bs < tv,
{
    lemma_div_mod(tv + bs - 1, bs);
    let q = block_count(tv, bs);
    assert(0 <= i * bs && (i + 1) * bs <= q * bs) by (nonlinear_arith)
        requires
            0 <= i,
            i + 1 <= q,
            0 < bs,
    ;
    assert((i + 1) * bs == i * bs + bs) by (nonlinear_arith);
}

/// The first `count` blocks together hold the low bits of a table position.
proof fn lemma_digits_sum(table_index: int, tv: int, bs: int, count: int)
    requires
        0 < bs,
        0 < tv,
        0 <= table_index,
        0 <= count <= block_count(tv, bs),
    ensures
        digits_sum(table_index, tv, bs, count) == table_index % pow2(
            (if count * bs < tv {
                count * bs
            } else {
                tv
            }) as nat,
        ) as int,
    decreases count,
{
    if count == 0 {
        lemma_pow2_small();
        assert(0 * bs == 0) by (nonlinear_arith);
    } else {
        let i = count - 1;
        lemma_block_offset(tv, bs, i);
        lemma_digits_sum(table_index, tv, bs, i);
        let offset = i * bs;
        assert(count * bs == offset + bs) by (nonlinear_arith)
            requires
                offset == i * bs,
                i == count - 1,
        ;
        let width = if tv - offset < bs {
            tv - offset
        } else {
            bs
        };
        let a = pow2(offset as nat) as int;
        let b = pow2(width as nat) as int;
        vstd::arithmetic::power2::lemma_pow2_pos(offset as nat);
        vstd::arithmetic::power2::lemma_pow2_pos(width as nat);
        vstd::arithmetic::power2::lemma_pow2_adds(offset as nat, width as nat);
        vstd::arithmetic::div_mod::lemma_breakdown(table_index, a, b);
        let v = (table_index / a) % b;
        assert(v * a == a * v) by (nonlinear_arith);
    }
}

/// The blocks of a split hold all the bits of every table position: the digits, each at its place,
/// add up to the position.
pub proof fn lemma_blocks_recombine(table_index: int, table_num_vars: int, block_size: int)
    requires
        0 < block_size,
        0 < table_num_vars,
        0 <= table_index < pow2(table_num_vars as nat),
    ensures
        digits_sum(
            table_index,
            table_num_vars,
            block_size,
            block_count(table_num_vars, block_size),
        ) == table_index,
{
    let count = block_count(table_num_vars, block_size);
    lemma_div_mod(table_num_vars + block_size - 1, block_size);
    assert(count >= 0) by (nonlinear_arith)
        requires
            count * block_size + block_size > table_num_vars + block_size - 1,
            block_size > 0,
            table_num_vars > 0,
    ;
    lemma_digits_sum(table_index, table_num_vars, block_size, count);
    vstd::arithmetic::div_mod::lemma_small_mod(
        table_index as nat,
        pow2(table_num_vars as nat),
    );
}

/// A block's digit is below the size of the block.
proof fn lemma_block_digit(table_index: int, tv: int, bs: int, i: int)
    requires
        0 < bs,
        0 < tv,
        0 <= i < block_count(tv, bs),
    ensures
        0 <= block_digit(table_index, tv, bs, i) < pow2(bs as nat),
{
    lemma_block_offset(tv, bs, i);
    let offset = i * bs;
    let width = if tv - offset < bs {
        tv - offset
    } else {
        bs
    };
    vstd::arithmetic::power2::lemma_pow2_pos(width as nat);
    lemma_pow2_mono(width as nat, bs as nat);
    lemma_div_mod(table_index / pow2(offset as nat) as int, pow2(width as nat) as int);
}

/// The input position `i` selects the table position `t`.
pub open spec fn has_pair(selection: Seq<(usize, usize)>, i: int, t: int) -> bool {
    exists|j: int|
        0 <= j < selection.len() && (#[trigger] selection[j]).0 == i && selection[j].1 == t
}

/// The value of a selection polynomial at a boolean point: one where the input position selects the
/// table position, and zero elsewhere.
pub proof fn lemma_selection_value(
    q: SparseMLPoly,
    input_num_vars: usize,
    table_num_vars: usize,
    selection: Seq<(usize, usize)>,
    i: int,
    t: int,
)
    requires
        q.stands_for(input_num_vars, table_num_vars, selection),
        input_num_vars + table_num_vars <= usize::BITS,
        forall|j: int|
            0 <= j < selection.len() ==> (#[trigger] selection[j]).0 < pow2(input_num_vars as nat),
        0 <= i < pow2(input_num_vars as nat),
        0 <= t < pow2(table_num_vars as nat),
    ensures
        q.table()[i + t * pow2(input_num_vars as nat)] == (if has_pair(selection, i, t) {
            1int
        } else {
            0int
        }),
{
    let (a, b) = (input_num_vars as nat, table_num_vars as nat);
    let s = pow2(a) as int;
    let index = i + t * s;
    vstd::arithmetic::power2::lemma_pow2_adds(a, b);
    assert(0 <= index < s * pow2(b)) by (nonlinear_arith)
        requires
            0 <= i < s,
            0 <= t,
            t + 1 <= pow2(b),
            index == i + t * s,
    ;
    lemma_word_bound(a + b);
    let p = index as usize;
    assert(p == index);
    if has_pair(selection, i, t) {
        let j = choose|j: int|
            0 <= j < selection.len() && (#[trigger] selection[j]).0 == i && selection[j].1 == t;
        assert(pair_index(selection[j], a) == index);
        assert(selected(selection, a, selection.len() as int, p as int));
    } else if selected(selection, a, selection.len() as int, p as int) {
        let j = choose|j: int|
            0 <= j < selection.len() && pair_index(#[trigger] selection[j], a) == index;
        lemma_div_mod_unique(index, s, t, i);
        lemma_div_mod_unique(index, s, selection[j].1 as int, selection[j].0 as int);
        assert(has_pair(selection, i, t));
    }
    assert(q.evaluations@.contains_key(p) <==> has_pair(selection, i, t));
}

/// A product of ones and zeros is one where all factors are.
proof fn lemma_product_of_bits(f: spec_fn(int) -> int, n: int)
    requires
        0 <= n,
        forall|b: int| 0 <= b < n ==> #[trigger] f(b) == 0 || f(b) == 1,
    ensures
        product_to(f, n) == (if forall|b: int| 0 <= b < n ==> #[trigger] f(b) == 1 {
            1int
        } else {
            0int
        }),
    decreases n,
{
    if n > 0 {
        lemma_product_of_bits(f, n - 1);
        let (x, y) = (product_to(f, n - 1), f(n - 1));
        assert(0 * y == 0 && 1 * y == y && x * 0 == 0) by (nonlinear_arith);
    }
}

/// A selection polynomial is the product of the blocks that it is split into: where every input
/// position selects at most one table position, its value at a boolean point is the product over the
/// blocks of their values at the input position and their bits of the table position.
pub proof fn lemma_blocks_multiply(
    whole: SparseMLPoly,
    blocks: Seq<SparseMLPoly>,
    block_size: usize,
    i: int,
    t: int,
)
    requires
        ({
            let (a, tv) = (whole.selection.input_num_vars, whole.selection.table_num_vars);
            let pairs = whole.selection.selection@;
            &&& 0 < block_size
            &&& 0 < tv
            &&& a + tv <= usize::BITS
            &&& a + block_size <= usize::BITS
            &&& whole.stands_for(a, tv, pairs)
            &&& forall|j: int|
                0 <= j < pairs.len() ==> (#[trigger] pairs[j]).0 < pow2(a as nat) && pairs[j].1
                    < pow2(tv as nat)
            &&& forall|j: int, k: int|
                0 <= j < pairs.len() && 0 <= k < pairs.len() && (#[trigger] pairs[j]).0 == (
                #[trigger] pairs[k]).0 ==> j == k
            &&& blocks.len() == block_count(tv as int, block_size as int)
            &&& forall|b: int|
                0 <= b < blocks.len() ==> (#[trigger] blocks[b]).stands_for(
                    a,
                    block_size,
                    Seq::new(
                        pairs.len(),
                        |j: int| block_pair(pairs[j], tv as int, block_size as int, b),
                    ),
                )
            &&& 0 <= i < pow2(a as nat)
            &&& 0 <= t < pow2(tv as nat)
        }),
    ensures
        ({
            let (a, tv) = (whole.selection.input_num_vars, whole.selection.table_num_vars);
            whole.table()[i + t * pow2(a as nat)] == product_to(
                |b: int|
                    blocks[b].table()[i + block_digit(t, tv as int, block_size as int, b) * pow2(
                        a as nat,
                    )],
                blocks.len() as int,
            )
        }),
{
    let (a, tv) = (whole.selection.input_num_vars, whole.selection.table_num_vars);
    let pairs = whole.selection.selection@;
    let (bs, v) = (block_size as int, tv as int);
    let count = blocks.len() as int;
    let f = |b: int| blocks[b].table()[i + block_digit(t, v, bs, b) * pow2(a as nat)];
    lemma_selection_value(whole, a, tv, pairs, i, t);
    lemma_word_bound(block_size as nat);
    assert forall|b: int| 0 <= b < count implies (#[trigger] f(b) == 0 || f(b) == 1) && (f(b) == 1
        <==> exists|j: int|
        0 <= j < pairs.len() && (#[trigger] pairs[j]).0 == i && block_digit(
            pairs[j].1 as int,
            v,
            bs,
            b,
        ) == block_digit(t, v, bs, b)) by {
        let part = Seq::new(pairs.len(), |j: int| block_pair(pairs[j], v, bs, b));
        assert(blocks[b].stands_for(a, block_size, part));
        assert forall|j: int| 0 <= j < part.len() implies (#[trigger] part[j]).0 < pow2(a as nat)
            && part[j].0 == pairs[j].0 && part[j].1 == block_digit(pairs[j].1 as int, v, bs, b) by {
            lemma_block_digit(pairs[j].1 as int, v, bs, b);
            assert(pairs[j].0 < pow2(a as nat));
        }
        let u = block_digit(t, v, bs, b);
        lemma_block_digit(t, v, bs, b);
        lemma_selection_value(blocks[b], a, block_size, part, i, u);
        if has_pair(part, i, u) {
            let j = choose|j: int|
                0 <= j < part.len() && (#[trigger] part[j]).0 == i && part[j].1 == u;
            assert(pairs[j].0 == i);
        }
        if exists|j: int|
            0 <= j < pairs.len() && (#[trigger] pairs[j]).0 == i && block_digit(
                pairs[j].1 as int,
                v,
                bs,
                b,
            ) == u {
            let j = choose|j: int|
                0 <= j < pairs.len() && (#[trigger] pairs[j]).0 == i && block_digit(
                    pairs[j].1 as int,
                    v,
                    bs,
                    b,
                ) == u;
            assert(part[j].0 == i && part[j].1 == u);
        }
    }
    lemma_product_of_bits(f, count);
    if has_pair(pairs, i, t) {
        let j = choose|j: int|
            0 <= j < pairs.len() && (#[trigger] pairs[j]).0 == i && pairs[j].1 == t;
        assert forall|b: int| 0 <= b < count implies #[trigger] f(b) == 1 by {
            assert(pairs[j].0 == i);
        }
    } else if forall|b: int| 0 <= b < count ==> #[trigger] f(b) == 1 {
        lemma_div_mod(v + bs - 1, bs);
        assert(count >= 1) by (nonlinear_arith)
            requires
                count * bs + bs > v + bs - 1,
                bs > 0,
                v > 0,
        ;
        assert(f(0) == 1);
        let j = choose|j: int|
            0 <= j < pairs.len() && (#[trigger] pairs[j]).0 == i && block_digit(
                pairs[j].1 as int,
                v,
                bs,
                0,
            ) == block_digit(t, v, bs, 0);
        let d = pairs[j].1 as int;
        let left = |b: int| block_digit(d, v, bs, b) * pow2((b * bs) as nat);
        let right = |b: int| block_digit(t, v, bs, b) * pow2((b * bs) as nat);
        assert forall|b: int| 0 <= b < count implies #[trigger] left(b) == right(b) by {
            assert(f(b) == 1);
            let k = choose|k: int|
                0 <= k < pairs.len() && (#[trigger] pairs[k]).0 == i && block_digit(
                    pairs[k].1 as int,
                    v,
                    bs,
                    b,
                ) == block_digit(t, v, bs, b);
            assert(pairs[j].0 == pairs[k].0);
        }
        lemma_sum_ext(left, right, count);
        lemma_blocks_recombine(d, v, bs);
        lemma_blocks_recombine(t, v, bs);
        assert(has_pair(pairs, i, t));
    }
}

/// Puts the sum of two polynomials' values at one index into a map, unless it is zero.
fn add_at(
    result: &mut HashMap<usize, Fr>,
    key: usize,
    left: &HashMap<usize, Fr>,
    right: &HashMap<usize, Fr>,
)
    requires
        old(result)@.contains_key(key) ==> (lookup(left@, key as int) + lookup(right@, key as int))
            % modulus() != 0,
    ensures
        final(result)@.contains_key(key) <==> (lookup(left@, key as int) + lookup(
            right@,
            key as int,
        )) % modulus() != 0,
        final(result)@.contains_key(key) ==> final(result)@[key]@ == (lookup(left@, key as int)
            + lookup(right@, key as int)) % modulus(),
        forall|p: usize|
            p != key ==> (#[trigger] final(result)@.contains_key(p) <==> old(
                result,
            )@.contains_key(p)),
        forall|p: usize|
            p != key && #[trigger] final(result)@.contains_key(p) ==> final(result)@[p] == old(
                result,
            )@[p],
{
    let zero = Fr::zero();
    let a: Fr = match left.get(&key) {
        Some(v) => *v,
        None => zero,
    };
    let b: Fr = match right.get(&key) {
        Some(v) => *v,
        None => zero,
    };
    let sum = a.add(b);
    if !sum.equals(&zero) {
        result.insert(key, sum);
    }
}

proof fn lemma_take_contains(keys: Seq<usize>, i: int, p: usize)
    requires
        0 <= i < keys.len(),
    ensures
        keys.take(i + 1).contains(p) <==> keys.take(i).contains(p) || p == keys[i],
{
    let a = keys.take(i);
    let b = keys.take(i + 1);
    if a.contains(p) {
        let j = choose|j: int| 0 <= j < a.len() && a[j] == p;
        assert(b[j] == p);
    }
    if p == keys[i] {
        assert(b[i] == p);
    }
    if b.contains(p) {
        let j = choose|j: int| 0 <= j < b.len() && b[j] == p;
        if j < i {
            assert(a[j] == p);
        }
    }
}

proof fn lemma_increasing_unique(keys: Seq<usize>, i: int)
    requires
        increasing(keys),
        0 <= i < keys.len(),
    ensures
        !keys.take(i).contains(keys[i]),
{
    let a = keys.take(i);
    if a.contains(keys[i]) {
        let j = choose|j: int| 0 <= j < a.len() && a[j] == keys[i];
        assert(keys[j] < keys[i]);
    }
}

proof fn lemma_lookup_range(map: Map<usize, Fr>, p: int)
    ensures
        lookup(map, p) % modulus() == lookup(map, p),
{
    if map.contains_key(p as usize) {
        lemma_fr_range(map[p as usize]);
    } else {
        lemma_modulus_bounds();
        vstd::arithmetic::div_mod::lemma_small_mod(0, modulus() as nat);
    }
}

/// A domain of at most as many variables as a word has bits is indexed by words.
pub proof fn lemma_word_bound(n: nat)
    requires
        n <= usize::BITS,
    ensures
        pow2(n) <= usize::MAX + 1,
{
    vstd::layout::unsigned_int_max_values();
    lemma_pow2_mono(n, usize::BITS as nat);
}

/// The values that fall on index `q`, weighted by the fixed variables, add up to the polynomial's
/// value.
proof fn lemma_fold_sum(map: Map<usize, Fr>, keys: Seq<usize>, z: Seq<int>, n: nat, q: int)
    requires
        n <= usize::BITS,
        z.len() <= n,
        increasing(keys),
        forall|k: usize| #[trigger] keys.contains(k) <==> map.contains_key(k),
        forall|k: usize| #[trigger] map.contains_key(k) ==> k < pow2(n),
        0 <= q < pow2((n - z.len()) as nat),
    ensures
        sum_to(
            |j: int|
                if keys[j] as int / pow2(z.len()) as int == q {
                    lookup(map, keys[j] as int) * eq_weight(z, keys[j] as int)
                } else {
                    0
                },
            keys.len() as int,
        ) == mle(map_table(map, n), z + bits(q, (n - z.len()) as nat)),
{
    let d = pow2(z.len()) as int;
    let m = (n - z.len()) as nat;
    let a = pow2(m) as int;
    let size = pow2(n) as int;
    let table = map_table(map, n);
    vstd::arithmetic::power2::lemma_pow2_adds(z.len(), m);
    vstd::arithmetic::power2::lemma_pow2_pos(z.len());
    assert(d * a == a * d) by (nonlinear_arith);
    lemma_word_bound(n);
    let f = |p: int|
        if p / d == q {
            lookup(map, p) * eq_weight(z, p)
        } else {
            0
        };
    assert forall|i: int| 0 <= i < keys.len() implies keys[i] < size by {
        assert(keys.contains(keys[i]));
    }
    assert forall|p: int| 0 <= p < size && !keys.contains(p as usize) implies #[trigger] f(p)
        == 0 by {
        let e = eq_weight(z, p);
        assert(!map.contains_key(p as usize));
        assert(0 * e == 0) by (nonlinear_arith);
    }
    lemma_sum_support(f, keys, size);
    lemma_sum_ext(
        |i: int| f(keys[i] as int),
        |j: int|
            if keys[j] as int / d == q {
                lookup(map, keys[j] as int) * eq_weight(z, keys[j] as int)
            } else {
                0
            },
        keys.len() as int,
    );
    lemma_sum_blocks(f, a, d);
    let rows = |h: int| sum_to(|l: int| f(h * d + l), d);
    assert forall|h: int| 0 <= h < a && h != q implies #[trigger] rows(h) == 0 by {
        let row = |l: int| f(h * d + l);
        assert forall|l: int| 0 <= l < d implies #[trigger] row(l) == 0 by {
            lemma_div_mod_unique(h * d + l, d, h, l);
        }
        lemma_sum_zero(row, d);
    }
    lemma_sum_single(rows, q, a);
    lemma_mle_low(table, z, q, m);
    let b = block(table, z.len(), q);
    let row = |l: int| f(q * d + l);
    let g = |l: int| b[l] * eq_weight(z, l);
    assert forall|l: int| 0 <= l < d implies #[trigger] row(l) == g(l) by {
        lemma_div_mod_unique(q * d + l, d, q, l);
        lemma_eq_low(z, l, q);
        assert(0 <= q * d + l < size) by (nonlinear_arith)
            requires
                0 <= q < a,
                0 <= l < d,
                size == a * d,
        ;
    }
    lemma_sum_ext(row, g, d);
}

} // verus!
