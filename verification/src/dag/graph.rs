//! A computation graph under construction, as a mathematical value, and what each step of its
//! construction does to it.
//!
//! A step that cannot be made, because an edge is not known or shapes do not fit, leaves a graph
//! that is not `ok`.
use crate::arith::{ln2_at, num_vars};
use crate::basicblock::BasicBlockType;
use crate::dag::equation::{equation_ok, equation_shape, letters_of};
use crate::dag::Node;
use crate::field::modulus;
use crate::poly::sparse::map_table;
use crate::select::spread;
use crate::shape::{broadcasted, compatible, constant_table, shared_places};
use crate::witness::{dense_value, empty_value, Content, DataType, Role, Value, Witness};
use vstd::arithmetic::power2::pow2;
use vstd::prelude::*;

verus! {

/// An operation as a mathematical value.
#[verifier::ext_equal]
pub ghost enum Op {
    Add,
    Sub,
    Einsum(Seq<char>),
    ExpHelper(usize),
    TwoPow,
    ChangeShape(Seq<usize>),
    ScaleDown(usize, usize),
    ScaleUp(usize, usize),
    NonStructuredExp(usize),
    NonNegative(usize),
    Reducer,
    Permute(Seq<(Seq<usize>, Seq<usize>)>, Seq<usize>),
    RMSReciprocal,
    Reciprocal,
    DivConst(usize),
    SoftmaxConst(usize),
    SigmoidConst,
    ClampLower(u64),
    ZeroCheck,
}

impl View for BasicBlockType {
    type V = Op;

    open spec fn view(&self) -> Op {
        match self {
            BasicBlockType::Add(_) => Op::Add,
            BasicBlockType::Sub(_) => Op::Sub,
            BasicBlockType::Einsum(b) => Op::Einsum(b.equation@),
            BasicBlockType::ExpHelper(b) => Op::ExpHelper(b.sf_log),
            BasicBlockType::TwoPow(_) => Op::TwoPow,
            BasicBlockType::ChangeShape(b) => Op::ChangeShape(b.new_shape@),
            BasicBlockType::ScaleDown(b) => Op::ScaleDown(b.input_sf, b.output_sf),
            BasicBlockType::ScaleUp(b) => Op::ScaleUp(b.input_sf, b.output_sf),
            BasicBlockType::NonStructuredExp(b) => Op::NonStructuredExp(b.sf_log),
            BasicBlockType::NonNegative(b) => Op::NonNegative(b.table_size_log),
            BasicBlockType::Reducer(_) => Op::Reducer,
            BasicBlockType::Permute(b) => Op::Permute(
                b.permutation@.map_values(|p: (Vec<usize>, Vec<usize>)| (p.0@, p.1@)),
                b.output_shape@,
            ),
            BasicBlockType::RMSReciprocal(_) => Op::RMSReciprocal,
            BasicBlockType::Reciprocal(_) => Op::Reciprocal,
            BasicBlockType::DivConst(b) => Op::DivConst(b.c),
            BasicBlockType::SoftmaxConst(b) => Op::SoftmaxConst(b.dim),
            BasicBlockType::SigmoidConst(_) => Op::SigmoidConst,
            BasicBlockType::ClampLower(b) => Op::ClampLower(b.c),
            BasicBlockType::ZeroCheck(_) => Op::ZeroCheck,
        }
    }
}

/// The number of outputs of an operation.
pub open spec fn op_arity(op: Op) -> nat {
    match op {
        Op::Permute(_, _) => 2,
        Op::ScaleDown(_, _) => 2,
        Op::ScaleUp(_, _) => 2,
        Op::ExpHelper(_) => 2,
        Op::NonStructuredExp(_) => 2,
        _ => 1,
    }
}

/// A node as a mathematical value.
#[verifier::ext_equal]
pub ghost struct NodeView {
    pub id: usize,
    pub op: Op,
    pub inputs: Seq<usize>,
    pub outputs: Seq<usize>,
}

impl View for Node {
    type V = NodeView;

    open spec fn view(&self) -> NodeView {
        NodeView {
            id: self.id,
            op: self.kind@,
            inputs: self.inputs@,
            outputs: self.outputs@,
        }
    }
}

/// The values of a polynomial on the boolean points.
pub open spec fn content_table(c: Content) -> Seq<int> {
    match c {
        Content::Dense { n, table } => table,
        Content::Sparse { n, evaluations, .. } => map_table(evaluations, n as nat),
    }
}

/// The number of variables of a polynomial.
pub open spec fn content_vars(c: Content) -> nat {
    match c {
        Content::Dense { n, .. } => n as nat,
        Content::Sparse { n, .. } => n as nat,
    }
}

/// The polynomial holds values for exactly the boolean points.
pub open spec fn content_valid(c: Content) -> bool {
    match c {
        Content::Dense { n, table } => table.len() == pow2(n as nat),
        Content::Sparse { n, evaluations, .. } => n <= usize::BITS && forall|p: usize| #[trigger]
            evaluations.contains_key(p) ==> p < pow2(n as nat),
    }
}

/// The tensor has a polynomial over the variables of its padded shape.
pub open spec fn value_filled(v: Value) -> bool {
    &&& v.data is Some
    &&& content_valid(v.data->0)
    &&& content_vars(v.data->0) == num_vars(v.shape)
    &&& num_vars(v.shape) < usize::BITS
}

/// A tensor's values are those of its mathematical value.
pub proof fn lemma_witness_value(w: &Witness)
    ensures
        w.filled() == value_filled(w@),
        w.data is Some ==> w.values() == content_table(w@.data->0),
{
    if w.data is Some {
        match w.data->0 {
            crate::witness::Poly::Dense(p) => {
                assert(p.table().len() == p.evaluations@.len());
                assert(w@.data->0 == (Content::Dense { n: p.n, table: p.table() }));
                assert(w.data->0.valid() == p.well_formed());
                assert(content_valid(w@.data->0) == p.well_formed());
                assert(w.data->0.vars() == p.n);
                assert(content_vars(w@.data->0) == p.n);
            },
            crate::witness::Poly::Sparse(p) => {
                assert(w.data->0.valid() == p.well_formed());
                let c = w@.data->0;
                assert(c->evaluations == p.evaluations@ && c->Sparse_n == p.n);
                if content_valid(c) {
                    assert forall|k: usize| #[trigger] p.evaluations@.contains_key(k) implies k
                        < pow2(p.n as nat) by {
                        assert(c->evaluations.contains_key(k));
                    }
                }
                if p.well_formed() {
                    assert forall|k: usize| #[trigger] c->evaluations.contains_key(k) implies k
                        < pow2(p.n as nat) by {
                        assert(p.evaluations@.contains_key(k));
                    }
                }
                assert(content_valid(w@.data->0) == p.well_formed());
                assert(w.data->0.vars() == p.n);
                assert(content_vars(w@.data->0) == p.n);
            },
        }
    }
}

/// The sum or the difference of two tensors, broadcast to a shape.
pub open spec fn combined_values(a: Value, b: Value, c: Seq<usize>, difference: bool) -> Seq<int> {
    let n = num_vars(c);
    let ta = spread(content_table(a.data->0), shared_places(a.shape, c), n);
    let tb = spread(content_table(b.data->0), shared_places(b.shape, c), n);
    Seq::new(
        pow2(n),
        |p: int|
            if difference {
                (ta[p] - tb[p]) % modulus()
            } else {
                (ta[p] + tb[p]) % modulus()
            },
    )
}

/// A graph under construction.
#[verifier::ext_equal]
pub ghost struct Graph {
    pub nodes: Seq<NodeView>,
    pub num_edges: usize,
    /// What is known of the value on each edge.
    pub values: Seq<Option<Value>>,
    /// The nodes whose outputs are checked to lie in a range.
    pub range: Seq<usize>,
    /// The nodes that look up powers of two.
    pub two_pow: Seq<usize>,
    /// The nodes that assert that their input is zero.
    pub zero_check: Seq<usize>,
    /// The number of fractional bits of real numbers.
    pub sf_log: usize,
    /// The number of bits of a number that passes the range check.
    pub table_size_log: usize,
    pub ok: bool,
}

/// A graph without edges.
pub open spec fn empty_graph(sf_log: usize, table_size_log: usize) -> Graph {
    Graph {
        nodes: seq![],
        num_edges: 0,
        values: seq![],
        range: seq![],
        two_pow: seq![],
        zero_check: seq![],
        sf_log,
        table_size_log,
        ok: true,
    }
}

impl Graph {
    /// The same graph, which stays `ok` only under a condition.
    pub open spec fn need(self, condition: bool) -> Graph {
        Graph { ok: self.ok && condition, ..self }
    }

    /// Something is known of the value on an edge.
    pub open spec fn known(self, e: usize) -> bool {
        e < self.values.len() && self.values[e as int] is Some
    }

    /// What is known of the value on an edge.
    pub open spec fn value(self, e: usize) -> Value {
        self.values[e as int]->0
    }

    /// Records what is known of the next edge.
    pub open spec fn with_value(self, v: Value) -> Graph {
        Graph { values: self.values.push(Some(v)), ..self }
    }

    /// Adds a node; its outputs are new edges.
    pub open spec fn with_node(self, inputs: Seq<usize>, op: Op) -> (Graph, Seq<usize>) {
        let outputs = Seq::new(op_arity(op), |i: int| (self.num_edges + i) as usize);
        (
            Graph {
                nodes: self.nodes.push(
                    NodeView { id: self.nodes.len() as usize, op, inputs, outputs },
                ),
                num_edges: (self.num_edges + op_arity(op)) as usize,
                ok: self.ok && self.num_edges + op_arity(op) <= usize::MAX && self.nodes.len()
                    < usize::MAX,
                ..self
            },
            outputs,
        )
    }

    /// Marks the next node as one whose outputs are range-checked.
    pub open spec fn with_range(self) -> Graph {
        Graph { range: self.range.push(self.nodes.len() as usize), ..self }
    }

    /// Marks the next node as one that looks up powers of two.
    pub open spec fn with_two_pow(self) -> Graph {
        Graph { two_pow: self.two_pow.push(self.nodes.len() as usize), ..self }
    }

    /// Marks the next node as one that asserts that its input is zero.
    pub open spec fn with_zero_check(self) -> Graph {
        Graph { zero_check: self.zero_check.push(self.nodes.len() as usize), ..self }
    }

    /// A new edge that no node writes, with its value.
    pub open spec fn with_edge(self, v: Value) -> (Graph, usize) {
        (
            Graph {
                num_edges: (self.num_edges + 1) as usize,
                ok: self.ok && self.num_edges < usize::MAX,
                ..self.with_value(v)
            },
            self.num_edges,
        )
    }

    pub open spec fn input(self, shape: Seq<usize>, data_type: DataType) -> (Graph, usize) {
        let sf = if data_type == DataType::Float {
            self.sf_log
        } else {
            0
        };
        self.with_edge(empty_value(shape, data_type, sf, Role::Input))
    }

    pub open spec fn param(self, t: Value) -> (Graph, usize) {
        self.need(t.role == Role::Constant).with_edge(t)
    }

    /// A constant tensor.
    pub open spec fn constant(self, shape: Seq<usize>, table: Seq<int>, sf: usize) -> (
        Graph,
        usize,
    ) {
        self.param(dense_value(shape, table, DataType::Float, sf, Role::Constant))
    }

    #[verifier::opaque]
    pub open spec fn nonneg(self, a: usize) -> Graph {
        let g = self.with_range();
        let (g, _) = g.with_node(seq![a], Op::NonNegative(self.table_size_log));
        g.with_value(empty_value(seq![1usize], DataType::Float, 0, Role::Auxiliary))
    }

    #[verifier::opaque]
    pub open spec fn assert_zero(self, a: usize) -> Graph {
        let (g, _) = self.with_zero_check().with_node(seq![a], Op::ZeroCheck);
        g.with_value(empty_value(seq![1usize], DataType::Float, 0, Role::Auxiliary))
    }

    #[verifier::opaque]
    pub open spec fn change_shape(self, a: usize, shape: Seq<usize>) -> (Graph, usize) {
        let g = self.need(self.known(a));
        let (g, outs) = g.with_node(seq![a], Op::ChangeShape(shape));
        (
            g.with_value(
                empty_value(shape, self.value(a).data_type, self.value(a).sf, Role::Output),
            ),
            outs[0],
        )
    }

    /// Changes the number of fractional bits.
    #[verifier::opaque]
    pub open spec fn scale(self, a: usize, input_sf: usize, output_sf: usize) -> (
        Graph,
        Seq<usize>,
    ) {
        let v = self.value(a);
        let op = if input_sf > output_sf {
            Op::ScaleDown(input_sf, output_sf)
        } else {
            Op::ScaleUp(input_sf, output_sf)
        };
        let g = self.need(self.known(a));
        let g = g.with_value(empty_value(v.shape, v.data_type, output_sf, Role::Output));
        let g = g.with_value(empty_value(seq![1usize], v.data_type, 0, Role::Auxiliary));
        g.with_range().with_node(seq![a], op)
    }

    /// The shapes of some edges.
    pub open spec fn shapes(self, edges: Seq<usize>) -> Seq<Seq<usize>> {
        edges.map_values(|e: usize| self.value(e).shape)
    }

    /// The fractional bits of some edges, added up.
    pub open spec fn total_sf(self, edges: Seq<usize>) -> int
        decreases edges.len(),
    {
        if edges.len() == 0 {
            0
        } else {
            self.total_sf(edges.drop_last()) + self.value(edges.last()).sf
        }
    }

    pub open spec fn all_known(self, edges: Seq<usize>) -> bool {
        forall|i: int| 0 <= i < edges.len() ==> self.known(#[trigger] edges[i])
    }

    /// A sum of products, with the fractional bits of the first input if `scale_back` is set and
    /// those of all inputs together if it is not.
    #[verifier::opaque]
    pub open spec fn einsum(self, equation: Seq<char>, inputs: Seq<usize>, scale_back: bool) -> (
        Graph,
        Seq<usize>,
    ) {
        let first = self.value(inputs[0]);
        let input_sf = self.total_sf(inputs) as usize;
        let g = self.need(
            inputs.len() >= 1 && self.all_known(inputs) && equation_ok(
                equation,
                self.shapes(inputs),
            ) && self.total_sf(inputs) <= usize::MAX,
        );
        let (g, outs) = g.with_node(inputs, Op::Einsum(equation));
        let g = g.with_value(
            empty_value(
                equation_shape(equation, self.shapes(inputs)),
                first.data_type,
                input_sf,
                Role::Output,
            ),
        );
        if scale_back {
            g.scale(outs[0], input_sf, first.sf)
        } else {
            (g, outs)
        }
    }

    /// The value of a sum or difference: computed where both inputs are constants.
    pub open spec fn combination(self, a: usize, b: usize, difference: bool) -> Value {
        let (x, y) = (self.value(a), self.value(b));
        let c = broadcasted(x.shape, y.shape);
        if x.data is None || y.data is None {
            empty_value(c, x.data_type, x.sf, Role::Output)
        } else {
            dense_value(
                c,
                combined_values(x, y, c, difference),
                DataType::Float,
                x.sf,
                Role::Constant,
            )
        }
    }

    /// Two tensors can be added or subtracted.
    pub open spec fn combinable(self, a: usize, b: usize) -> bool {
        let (x, y) = (self.value(a), self.value(b));
        &&& self.known(a)
        &&& self.known(b)
        &&& compatible(x.shape, y.shape)
        &&& x.data is Some && y.data is Some ==> value_filled(x) && value_filled(y) && x.sf == y.sf
            && num_vars(broadcasted(x.shape, y.shape)) < usize::BITS
    }

    #[verifier::opaque]
    pub open spec fn plus(self, a: usize, b: usize) -> (Graph, Seq<usize>) {
        let g = self.need(self.combinable(a, b));
        g.with_value(self.combination(a, b, false)).with_node(seq![a, b], Op::Add)
    }

    #[verifier::opaque]
    pub open spec fn minus(self, a: usize, b: usize) -> (Graph, Seq<usize>) {
        let g = self.need(self.combinable(a, b));
        g.with_value(self.combination(a, b, true)).with_node(seq![a, b], Op::Sub)
    }

    /// Sets the padding of a tensor to zero.
    #[verifier::opaque]
    pub open spec fn mask(self, a: usize, shape: Seq<usize>) -> (Graph, usize) {
        let s = letters_of(shape.len());
        let g = self.need(shape.len() <= 159 && num_vars(shape) < usize::BITS);
        let (g, e) = g.constant(shape, constant_table(shape, 1), 0);
        let (g, outs) = g.einsum(s + ","@ + s + "->"@ + s, seq![a, e], false);
        (g, outs[0])
    }

    /// The bound that keeps the exponential's argument within its table.
    pub open spec fn clamp_bound(sf: usize) -> int {
        14 * ln2_at(sf as nat)
    }

    /// Clamps a tensor from below, with the constraints that pin the output down.
    #[verifier::opaque]
    pub open spec fn clamp_lower(self, x: usize) -> (Graph, usize) {
        let v = self.value(x);
        let flat = seq![pow2(num_vars(v.shape)) as usize];
        let c = Graph::clamp_bound(v.sf);
        let g = self.need(self.known(x) && v.sf < 60 && num_vars(v.shape) < usize::BITS);
        let (g, x) = g.mask(x, v.shape);
        let (g, outs) = g.with_node(seq![x], Op::ClampLower(c as u64));
        let y = outs[0];
        let g = g.with_value(empty_value(v.shape, v.data_type, v.sf, Role::Output));
        let (g, delta) = g.minus(y, x);
        let (g, delta_flat) = g.change_shape(delta[0], flat);
        let g = g.nonneg(delta_flat);
        let (g, c_edge) = g.param(
            dense_value(v.shape, constant_table(v.shape, c), v.data_type, v.sf, Role::Constant),
        );
        let (g, u) = g.plus(y, c_edge);
        let (g, u_flat) = g.change_shape(u[0], flat);
        let g = g.nonneg(u_flat);
        let (g, z) = g.einsum("a,a->a"@, seq![delta_flat, u_flat], false);
        (g.assert_zero(z[0]), y)
    }

    #[verifier::opaque]
    pub open spec fn sigmoid_const(self, a: usize) -> (Graph, Seq<usize>) {
        let v = self.value(a);
        let g = self.need(self.known(a));
        g.with_value(empty_value(v.shape, v.data_type, v.sf, Role::Output)).with_node(
            seq![a],
            Op::SigmoidConst,
        )
    }

    #[verifier::opaque]
    pub open spec fn nonstructured_exp(self, a: usize, t: usize) -> (Graph, Seq<usize>) {
        let v = self.value(a);
        let g = self.need(self.known(a));
        let g = g.with_value(empty_value(v.shape, v.data_type, self.sf_log, Role::Output));
        let g = g.with_value(empty_value(seq![1usize], v.data_type, 0, Role::Auxiliary));
        g.with_node(seq![a, t], Op::NonStructuredExp(self.sf_log))
    }

    /// The exponential: the clamped argument is decomposed into a power of two and a remainder, the
    /// power is looked up, and the remainder goes through the Taylor polynomial of degree three.
    #[verifier::opaque]
    pub open spec fn exp(self, a: usize) -> (Graph, Seq<usize>) {
        let (g, a) = self.clamp_lower(a);
        let v = g.value(a);
        let flat = seq![pow2(num_vars(v.shape)) as usize];
        let g = g.need(g.known(a) && num_vars(v.shape) < usize::BITS);
        let g = g.with_value(empty_value(v.shape, v.data_type, self.sf_log, Role::Output));
        let g = g.with_value(empty_value(seq![1usize], v.data_type, 0, Role::Auxiliary));
        let (g, outs) = g.with_range().with_node(seq![a], Op::ExpHelper(self.sf_log));
        let (g, r) = g.scale(outs[0], self.sf_log, 15);
        let (g, power) = g.with_two_pow().with_node(seq![outs[1]], Op::TwoPow);
        let g = g.with_value(empty_value(v.shape, v.data_type, 15, Role::Output));
        let (g, power) = g.change_shape(power[0], flat);
        let (g, sixth) = g.constant_flat(v.shape, flat, 5461);
        let (g, half) = g.constant_flat(v.shape, flat, 16384);
        let (g, one) = g.constant_flat(v.shape, flat, 32768);
        let (g, r) = g.change_shape(r[0], flat);
        let (g, square) = g.einsum("a,a->a"@, seq![r, r], true);
        let (g, r_sixth) = g.einsum("a,a->a"@, seq![r, sixth], true);
        let (g, plus_half) = g.plus(r_sixth[0], half);
        let (g, high) = g.einsum("a,a->a"@, seq![plus_half[0], square[0]], true);
        let (g, with_r) = g.plus(high[0], r);
        let (g, exp_r) = g.plus(with_r[0], one);
        let (g, product) = g.einsum("a,a->a"@, seq![power, exp_r[0]], false);
        let (g, scaled) = g.scale(product[0], 30, self.sf_log);
        let (g, out) = g.change_shape(scaled[0], v.shape);
        (g, seq![out])
    }

    /// A constant inside a shape, under a flat shape.
    #[verifier::opaque]
    pub open spec fn constant_flat(self, shape: Seq<usize>, flat: Seq<usize>, v: int) -> (
        Graph,
        usize,
    ) {
        self.constant(flat, constant_table(shape, v), 15)
    }

    #[verifier::opaque]
    pub open spec fn sigmoid(self, a: usize) -> (Graph, Seq<usize>) {
        let (g, c) = self.sigmoid_const(a);
        let (g, shifted) = g.plus(a, c[0]);
        let (g, out) = g.exp(shifted[0]);
        (g, seq![out[0]])
    }

    /// Splits the last dimension into two or joins the last two into one.
    #[verifier::opaque]
    pub open spec fn reshape(self, a: usize, shape: Seq<usize>) -> (Graph, Seq<usize>) {
        let old_shape = self.value(a).shape;
        let (m, k) = (old_shape.len() as int, shape.len() as int);
        let g = self.need(self.known(a) && m >= 2);
        if k > m {
            let g = g.need(shape[k - 1] * shape[k - 2] == old_shape[m - 1]);
            let (g, b) = g.change_shape(
                a,
                seq![old_shape[0], old_shape[1], shape[k - 1], shape[k - 2]],
            );
            g.einsum("bsdh->bshd"@, seq![b], false)
        } else if k < m {
            let g = g.need(k >= 1 && shape[k - 1] == old_shape[m - 1] * old_shape[m - 2]);
            let (g, o) = g.einsum("bshd->bsdh"@, seq![a], false);
            let (g, out) = g.change_shape(o[0], shape);
            (g, seq![out])
        } else {
            (g.need(false), seq![])
        }
    }
}

pub broadcast proof fn lemma_nonneg_ok(g: Graph, a: usize)
    ensures
        (#[trigger] g.nonneg(a)).ok ==> g.ok,
{
    reveal(Graph::nonneg);
}

pub broadcast proof fn lemma_assert_zero_ok(g: Graph, a: usize)
    ensures
        (#[trigger] g.assert_zero(a)).ok ==> g.ok,
{
    reveal(Graph::assert_zero);
}

pub broadcast proof fn lemma_change_shape_ok(g: Graph, a: usize, shape: Seq<usize>)
    ensures
        (#[trigger] g.change_shape(a, shape)).0.ok ==> g.ok,
{
    reveal(Graph::change_shape);
}

pub broadcast proof fn lemma_scale_ok(g: Graph, a: usize, i: usize, o: usize)
    ensures
        (#[trigger] g.scale(a, i, o)).0.ok ==> g.ok,
{
    reveal(Graph::scale);
}

pub broadcast proof fn lemma_einsum_ok(g: Graph, e: Seq<char>, i: Seq<usize>, b: bool)
    ensures
        (#[trigger] g.einsum(e, i, b)).0.ok ==> g.ok,
{
    reveal(Graph::einsum);
    reveal(Graph::scale);
}

pub broadcast proof fn lemma_plus_ok(g: Graph, a: usize, b: usize)
    ensures
        (#[trigger] g.plus(a, b)).0.ok ==> g.ok,
{
    reveal(Graph::plus);
}

pub broadcast proof fn lemma_minus_ok(g: Graph, a: usize, b: usize)
    ensures
        (#[trigger] g.minus(a, b)).0.ok ==> g.ok,
{
    reveal(Graph::minus);
}

pub broadcast proof fn lemma_mask_ok(g: Graph, a: usize, shape: Seq<usize>)
    ensures
        (#[trigger] g.mask(a, shape)).0.ok ==> g.ok,
{
    reveal(Graph::mask);
    reveal(Graph::einsum);
}

pub broadcast proof fn lemma_sigmoid_const_ok(g: Graph, a: usize)
    ensures
        (#[trigger] g.sigmoid_const(a)).0.ok ==> g.ok,
{
    reveal(Graph::sigmoid_const);
}

pub broadcast proof fn lemma_nonstructured_exp_ok(g: Graph, a: usize, t: usize)
    ensures
        (#[trigger] g.nonstructured_exp(a, t)).0.ok ==> g.ok,
{
    reveal(Graph::nonstructured_exp);
}

pub broadcast proof fn lemma_constant_flat_ok(g: Graph, shape: Seq<usize>, flat: Seq<usize>, v: int)
    ensures
        (#[trigger] g.constant_flat(shape, flat, v)).0.ok ==> g.ok,
{
    reveal(Graph::constant_flat);
}

broadcast group group_simple_ok {
    lemma_nonneg_ok,
    lemma_assert_zero_ok,
    lemma_change_shape_ok,
    lemma_scale_ok,
    lemma_einsum_ok,
    lemma_plus_ok,
    lemma_minus_ok,
    lemma_mask_ok,
    lemma_sigmoid_const_ok,
    lemma_nonstructured_exp_ok,
    lemma_constant_flat_ok,
}

pub broadcast proof fn lemma_clamp_lower_ok(g: Graph, x: usize)
    ensures
        (#[trigger] g.clamp_lower(x)).0.ok ==> g.ok,
{
    broadcast use group_simple_ok;

    reveal(Graph::clamp_lower);
}

pub broadcast proof fn lemma_reshape_ok(g: Graph, a: usize, shape: Seq<usize>)
    ensures
        (#[trigger] g.reshape(a, shape)).0.ok ==> g.ok,
{
    broadcast use group_simple_ok;

    reveal(Graph::reshape);
}

pub broadcast proof fn lemma_exp_ok(g: Graph, a: usize)
    ensures
        (#[trigger] g.exp(a)).0.ok ==> g.ok,
{
    broadcast use group_simple_ok;
    broadcast use lemma_clamp_lower_ok;

    reveal(Graph::exp);
}

pub broadcast proof fn lemma_sigmoid_ok(g: Graph, a: usize)
    ensures
        (#[trigger] g.sigmoid(a)).0.ok ==> g.ok,
{
    broadcast use group_simple_ok;
    broadcast use lemma_exp_ok;

    reveal(Graph::sigmoid);
}

/// Every step only makes a graph that is `ok` from one that is.
pub broadcast group group_ok {
    lemma_nonneg_ok,
    lemma_assert_zero_ok,
    lemma_change_shape_ok,
    lemma_scale_ok,
    lemma_einsum_ok,
    lemma_plus_ok,
    lemma_minus_ok,
    lemma_mask_ok,
    lemma_sigmoid_const_ok,
    lemma_nonstructured_exp_ok,
    lemma_constant_flat_ok,
    lemma_clamp_lower_ok,
    lemma_reshape_ok,
    lemma_exp_ok,
    lemma_sigmoid_ok,
}

} // verus!
