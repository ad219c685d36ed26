//! What the dense and the sparse polynomials have in common.
use crate::field::{modulus, vals, Fr};
use crate::math::two_to;
use crate::mle::{bits, mle};
use crate::poly::dense::DenseMLPoly;
use crate::poly::sparse::SparseMLPoly;
use vstd::arithmetic::power2::pow2;
use vstd::prelude::*;

verus! {

/// A multilinear polynomial, determined by its values on the boolean points.
pub trait MLPoly: Sized {
    /// The number of variables.
    spec fn vars(&self) -> nat;

    /// The values on the boolean points.
    spec fn values(&self) -> Seq<int>;

    /// The values are held for exactly the boolean points.
    spec fn valid(&self) -> bool;

    /// The number of values: one for each boolean point, where the polynomial is valid.
    spec fn count(&self) -> nat;

    /// Fixes the first variables.
    fn fix_variables(&self, partial_point: &[Fr]) -> (r: Self)
        requires
            self.valid(),
            partial_point@.len() <= self.vars(),
        ensures
            r.valid(),
            r.vars() == self.vars() - partial_point@.len(),
            forall|b: int|
                0 <= b < pow2(r.vars()) ==> #[trigger] r.values()[b] == mle(
                    self.values(),
                    vals(partial_point@) + bits(b, r.vars()),
                ) % modulus(),
    ;

    /// The number of variables.
    fn n(&self) -> (r: usize)
        ensures
            r == self.vars(),
    ;

    /// The number of values.
    fn len(&self) -> (r: usize)
        requires
            self.count() <= usize::MAX,
        ensures
            r == self.count(),
            self.valid() ==> r == pow2(self.vars()),
    ;

    /// The value at a point.
    fn evaluate_at_point(&self, point: &[Fr]) -> (r: Fr)
        requires
            self.valid(),
            point@.len() == self.vars(),
        ensures
            r@ == mle(self.values(), vals(point@)) % modulus(),
    ;

    /// The values on all boolean points.
    fn evaluations(&self) -> (r: Vec<Fr>)
        requires
            self.valid(),
            self.vars() < usize::BITS,
        ensures
            vals(r@) =~= self.values(),
    ;

    /// The value at the boolean point with the given index.
    fn index(&self, index: usize) -> (r: Fr)
        requires
            self.valid(),
            index < pow2(self.vars()),
        ensures
            r@ == self.values()[index as int],
    ;

    /// The value at the boolean point with the given index, for change.
    fn index_mut(&mut self, index: usize) -> (r: &mut Fr)
        requires
            old(self).valid(),
            index < pow2(old(self).vars()),
        ensures
            (*r)@ == old(self).values()[index as int],
            final(self).vars() == old(self).vars(),
            final(self).values() =~= old(self).values().update(index as int, (*final(r))@),
    ;

    fn mul_by_scalar(&self, scalar: Fr) -> (r: Self)
        requires
            self.valid(),
            self.vars() < usize::BITS,
        ensures
            r.vars() == self.vars(),
            r.values() =~= Seq::new(
                pow2(self.vars()),
                |i: int| (self.values()[i] * scalar@) % modulus(),
            ),
    ;

    fn add(&self, other: &Self) -> (r: Self)
        requires
            self.valid(),
            other.valid(),
            self.vars() == other.vars(),
            self.vars() < usize::BITS,
        ensures
            r.vars() == self.vars(),
            r.values() =~= Seq::new(
                pow2(self.vars()),
                |i: int| (self.values()[i] + other.values()[i]) % modulus(),
            ),
    ;
}

impl MLPoly for DenseMLPoly {
    open spec fn vars(&self) -> nat {
        self.n as nat
    }

    open spec fn values(&self) -> Seq<int> {
        self.table()
    }

    open spec fn valid(&self) -> bool {
        self.well_formed()
    }

    open spec fn count(&self) -> nat {
        self.evaluations@.len()
    }

    fn fix_variables(&self, partial_point: &[Fr]) -> (r: DenseMLPoly) {
        let r = DenseMLPoly::fix_variables(self, partial_point);
        proof {
            assert forall|b: int| 0 <= b < pow2(r.n as nat) implies #[trigger] r.values()[b] == mle(
                self.values(),
                vals(partial_point@) + bits(b, r.n as nat),
            ) % modulus() by {
                assert(r.values()[b] == r.evaluations@[b]@);
            }
        }
        r
    }

    fn n(&self) -> (r: usize) {
        self.n
    }

    fn len(&self) -> (r: usize) {
        self.evaluations.len()
    }

    fn evaluate_at_point(&self, point: &[Fr]) -> (r: Fr) {
        DenseMLPoly::evaluate_at_point(self, point)
    }

    fn evaluations(&self) -> (r: Vec<Fr>) {
        DenseMLPoly::evaluations(self)
    }

    fn index(&self, index: usize) -> (r: Fr) {
        DenseMLPoly::index(self, index)
    }

    fn index_mut(&mut self, index: usize) -> (r: &mut Fr) {
        DenseMLPoly::index_mut(self, index)
    }

    fn mul_by_scalar(&self, scalar: Fr) -> (r: DenseMLPoly) {
        DenseMLPoly::mul_by_scalar(self, scalar)
    }

    fn add(&self, other: &DenseMLPoly) -> (r: DenseMLPoly) {
        DenseMLPoly::add(self, other)
    }
}

impl MLPoly for SparseMLPoly {
    open spec fn vars(&self) -> nat {
        self.n as nat
    }

    open spec fn values(&self) -> Seq<int> {
        self.table()
    }

    open spec fn valid(&self) -> bool {
        self.well_formed()
    }

    open spec fn count(&self) -> nat {
        pow2(self.n as nat)
    }

    fn fix_variables(&self, partial_point: &[Fr]) -> (r: SparseMLPoly) {
        SparseMLPoly::fix_variables(self, partial_point)
    }

    fn n(&self) -> (r: usize) {
        self.n
    }

    fn len(&self) -> (r: usize) {
        proof {
            crate::poly::dense::lemma_shift_fits(self.count(), self.n as nat);
        }
        two_to(self.n)
    }

    fn evaluate_at_point(&self, point: &[Fr]) -> (r: Fr) {
        SparseMLPoly::evaluate_at_point(self, point)
    }

    fn evaluations(&self) -> (r: Vec<Fr>) {
        SparseMLPoly::evaluations(self)
    }

    fn index(&self, index: usize) -> (r: Fr) {
        SparseMLPoly::index(self, index)
    }

    fn index_mut(&mut self, index: usize) -> (r: &mut Fr) {
        proof {
            crate::poly::sparse::lemma_word_bound(self.n as nat);
        }
        SparseMLPoly::index_mut(self, index)
    }

    fn mul_by_scalar(&self, scalar: Fr) -> (r: SparseMLPoly) {
        let r = SparseMLPoly::mul_by_scalar(self, scalar);
        proof {
            vstd::bits::lemma_usize_pow2_no_overflow(self.n as nat);
            let goal = Seq::new(
                pow2(self.vars()),
                |i: int| (self.values()[i] * scalar@) % modulus(),
            );
            assert forall|i: int| 0 <= i < goal.len() implies r.values()[i] == goal[i] by {
                let p = i as usize;
                assert(crate::poly::sparse::lookup(r.evaluations@, p as int) == (
                crate::poly::sparse::lookup(self.evaluations@, p as int) * scalar@) % modulus());
            }
        }
        r
    }

    fn add(&self, other: &SparseMLPoly) -> (r: SparseMLPoly) {
        let r = SparseMLPoly::add(self, other);
        proof {
            vstd::bits::lemma_usize_pow2_no_overflow(self.n as nat);
            let goal = Seq::new(
                pow2(self.vars()),
                |i: int| (self.values()[i] + other.values()[i]) % modulus(),
            );
            assert forall|i: int| 0 <= i < goal.len() implies r.values()[i] == goal[i] by {
                let p = i as usize;
                assert(crate::poly::sparse::lookup(r.evaluations@, p as int) == (
                crate::poly::sparse::lookup(self.evaluations@, p as int)
                    + crate::poly::sparse::lookup(other.evaluations@, p as int)) % modulus());
            }
        }
        r
    }
}

} // verus!
