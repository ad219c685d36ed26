//! The values on the edges of a computation graph, and the claims made about them.
use crate::arith::{get_n, num_vars};
use crate::field::{modulus, vals, Fr};
use crate::mle::mle;
use crate::poly::dense::DenseMLPoly;
use crate::poly::mlpoly::MLPoly;
use crate::poly::sparse::SparseMLPoly;
use vstd::arithmetic::power2::pow2;
use vstd::prelude::*;

verus! {

/// What the integers of a tensor stand for.
#[derive(Clone, Copy, Debug, PartialEq, Eq, Structural)]
pub enum DataType {
    /// Fixed-point numbers.
    Float,
    /// Integers.
    Int,
}

/// What a tensor is in its graph.
#[derive(Clone, Copy, Debug, PartialEq, Eq, Structural)]
pub enum Role {
    Input,
    Constant,
    Output,
    Auxiliary,
}

/// How a tensor's polynomial is held.
#[derive(Clone, Copy, Debug, PartialEq, Eq, Structural)]
pub enum PolyType {
    Dense,
    Sparse,
}

/// The polynomial of a tensor.
#[derive(Debug)]
pub enum Poly {
    Dense(DenseMLPoly),
    Sparse(SparseMLPoly),
}

/// A polynomial as its number of variables, its values on the boolean points and, for a sparse one,
/// the list of its indices and its selection.
#[verifier::ext_equal]
pub ghost enum Content {
    Dense { n: usize, table: Seq<int> },
    Sparse {
        n: usize,
        evaluations: Map<usize, Fr>,
        indices: Seq<usize>,
        input_num_vars: usize,
        table_num_vars: usize,
        selection: Seq<(usize, usize)>,
    },
}

impl View for Poly {
    type V = Content;

    open spec fn view(&self) -> Content {
        match self {
            Poly::Dense(p) => Content::Dense { n: p.n, table: p.table() },
            Poly::Sparse(p) => Content::Sparse {
                n: p.n,
                evaluations: p.evaluations@,
                indices: p.indices@,
                input_num_vars: p.selection.input_num_vars,
                table_num_vars: p.selection.table_num_vars,
                selection: p.selection.selection@,
            },
        }
    }
}

impl Poly {
    pub open spec fn vars(&self) -> nat {
        match self {
            Poly::Dense(p) => p.vars(),
            Poly::Sparse(p) => p.vars(),
        }
    }

    pub open spec fn values(&self) -> Seq<int> {
        match self {
            Poly::Dense(p) => p.values(),
            Poly::Sparse(p) => p.values(),
        }
    }

    pub open spec fn valid(&self) -> bool {
        match self {
            Poly::Dense(p) => p.valid(),
            Poly::Sparse(p) => p.valid(),
        }
    }

    pub fn n(&self) -> (r: usize)
        ensures
            r == self.vars(),
    {
        match self {
            Poly::Dense(p) => p.n,
            Poly::Sparse(p) => p.n,
        }
    }

    pub fn index(&self, index: usize) -> (r: Fr)
        requires
            self.valid(),
            index < pow2(self.vars()),
        ensures
            r@ == self.values()[index as int],
    {
        match self {
            Poly::Dense(p) => MLPoly::index(p, index),
            Poly::Sparse(p) => MLPoly::index(p, index),
        }
    }

    pub fn evaluate_at_point(&self, point: &[Fr]) -> (r: Fr)
        requires
            self.valid(),
            point@.len() == self.vars(),
        ensures
            r@ == mle(self.values(), vals(point@)) % modulus(),
    {
        match self {
            Poly::Dense(p) => MLPoly::evaluate_at_point(p, point),
            Poly::Sparse(p) => MLPoly::evaluate_at_point(p, point),
        }
    }
}

impl Clone for Poly {
    fn clone(&self) -> (r: Poly)
        ensures
            r@ == self@,
    {
        match self {
            Poly::Dense(p) => Poly::Dense(p.clone()),
            Poly::Sparse(p) => Poly::Sparse(p.clone()),
        }
    }
}

/// The value on an edge: a tensor with its shape, its scale and its polynomial, where it is known.
#[derive(Debug)]
pub struct Witness {
    /// The dimensions, not padded.
    pub shape: Vec<usize>,
    pub data: Option<Poly>,
    pub poly_type: PolyType,
    pub data_type: DataType,
    /// The number of fractional bits.
    pub sf: usize,
    pub role: Role,
}

/// A tensor as a mathematical value.
#[verifier::ext_equal]
pub ghost struct Value {
    pub shape: Seq<usize>,
    pub data: Option<Content>,
    pub poly_type: PolyType,
    pub data_type: DataType,
    pub sf: usize,
    pub role: Role,
}

impl View for Witness {
    type V = Value;

    open spec fn view(&self) -> Value {
        Value {
            shape: self.shape@,
            data: match self.data {
                Some(p) => Some(p@),
                None => None,
            },
            poly_type: self.poly_type,
            data_type: self.data_type,
            sf: self.sf,
            role: self.role,
        }
    }
}

/// A copy of a list of words.
pub fn copy_words(v: &[usize]) -> (r: Vec<usize>)
    ensures
        r@ == v@,
{
    let mut r: Vec<usize> = Vec::with_capacity(v.len());
    let mut i: usize = 0;
    while i < v.len()
        invariant
            i <= v@.len(),
            r@ == v@.take(i as int),
        decreases v.len() - i,
    {
        r.push(v[i]);
        i += 1;
    }
    assert(r@ =~= v@);
    r
}

impl Clone for Witness {
    fn clone(&self) -> (r: Witness)
        ensures
            r@ == self@,
    {
        let data: Option<Poly> = match &self.data {
            Some(p) => Some(p.clone()),
            None => None,
        };
        Witness {
            shape: copy_words(self.shape.as_slice()),
            data,
            poly_type: self.poly_type,
            data_type: self.data_type,
            sf: self.sf,
            role: self.role,
        }
    }
}

/// A tensor with a dense polynomial.
pub open spec fn dense_value(
    shape: Seq<usize>,
    table: Seq<int>,
    data_type: DataType,
    sf: usize,
    role: Role,
) -> Value {
    Value {
        shape,
        data: Some(Content::Dense { n: num_vars(shape) as usize, table }),
        poly_type: PolyType::Dense,
        data_type,
        sf,
        role,
    }
}

/// A tensor whose polynomial is not known yet.
pub open spec fn empty_value(
    shape: Seq<usize>,
    data_type: DataType,
    sf: usize,
    role: Role,
) -> Value {
    Value { shape, data: None, poly_type: PolyType::Dense, data_type, sf, role }
}

impl Witness {
    /// A tensor with a dense polynomial.
    pub fn new(
        shape: Vec<usize>,
        data: Vec<Fr>,
        data_type: DataType,
        sf: usize,
        role: Role,
    ) -> (r: Witness)
        requires
            num_vars(shape@) <= usize::MAX,
        ensures
            r@ == dense_value(shape@, vals(data@), data_type, sf, role),
            r.data matches Some(Poly::Dense(p)) && p.n == num_vars(shape@) && p.evaluations@
                == data@,
    {
        let n = get_n(shape.as_slice());
        Witness {
            shape,
            data: Some(Poly::Dense(DenseMLPoly::new(n, data))),
            poly_type: PolyType::Dense,
            data_type,
            sf,
            role,
        }
    }

    /// A tensor whose polynomial is not known yet.
    pub fn new_wo_data(shape: Vec<usize>, data_type: DataType, sf: usize, role: Role) -> (r:
        Witness)
        ensures
            r@ == empty_value(shape@, data_type, sf, role),
    {
        Witness { shape, data: None, poly_type: PolyType::Dense, data_type, sf, role }
    }

    /// The tensor has a polynomial with a value for each boolean point, over the variables of its
    /// padded shape.
    pub open spec fn filled(&self) -> bool {
        &&& self.data is Some
        &&& self.data->0.valid()
        &&& self.data->0.vars() == num_vars(self.shape@)
        &&& num_vars(self.shape@) < usize::BITS
    }

    /// The values of the polynomial on the boolean points.
    pub open spec fn values(&self) -> Seq<int> {
        self.data->0.values()
    }
}

/// A claim that the polynomial on an edge has a value at a point.
#[derive(Debug)]
pub struct Claim {
    pub edge_id: usize,
    pub sparse_id: usize,
    pub point: Vec<Fr>,
    pub eval: Fr,
}

/// The polynomial of a tensor has the claimed value.
pub open spec fn holds(claim: &Claim, w: &Witness) -> bool {
    claim.eval@ == mle(w.values(), vals(claim.point@)) % modulus()
}

} // verus!
