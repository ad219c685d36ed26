//! Building computation graphs.
use crate::arith::{get_n, num_vars, scaled_ln2};
use crate::basicblock::add::{difference_table, sum_table};
use crate::basicblock::{
    Add, BasicBlock, BasicBlockType, ChangeShape, ClampLower, Einsum, ExpHelper, NonNegative,
    NonStructuredExp, ScaleDown, ScaleUp, SigmoidConst, Sub, TwoPow, ZeroCheck,
};
use crate::dag::equation::{letters, output_shape, shapes_view};
use crate::dag::graph::{
    combined_values, empty_graph, lemma_witness_value, op_arity, Graph, NodeView,
};
use crate::dag::{EdgeId, Node, NodeId};
use crate::field::{vals, CryptoField, Fr};
use crate::math::two_to;
use crate::shape::{broadcast_shape, broadcasted, constant_table, padded_constant};
use crate::witness::{copy_words, DataType, Role, Value, Witness};
use vstd::prelude::*;
use vstd::string::{StrSliceExecFns, StringExecFns};

verus! {

broadcast use crate::dag::graph::group_ok;

/// Builds a computation graph, one operation after the other.
#[derive(Debug)]
pub struct DagBuilder {
    pub nodes: Vec<Node>,
    pub num_edges: usize,
    /// What is known of the value on each edge.
    pub init_values: Vec<Option<Witness>>,
    /// The nodes whose outputs are checked to lie in a range.
    pub range: Vec<NodeId>,
    /// The nodes that look up powers of two.
    pub two_pow: Vec<NodeId>,
    /// The nodes that assert that their input is zero.
    pub zero_check: Vec<NodeId>,
    /// The number of fractional bits of real numbers.
    pub sf_log: usize,
    /// The number of bits of a number that passes the range check.
    pub table_size_log: usize,
}

/// The nodes as mathematical values.
pub open spec fn node_views(nodes: Seq<Node>) -> Seq<NodeView> {
    nodes.map_values(|n: Node| n@)
}

/// What is known of an edge, as a mathematical value.
pub open spec fn value_view(v: Option<Witness>) -> Option<Value> {
    match v {
        Some(w) => Some(w@),
        None => None,
    }
}

/// What is known of the edges, as mathematical values.
pub open spec fn value_views(values: Seq<Option<Witness>>) -> Seq<Option<Value>> {
    values.map_values(|v: Option<Witness>| value_view(v))
}

impl View for DagBuilder {
    type V = Graph;

    open spec fn view(&self) -> Graph {
        Graph {
            nodes: node_views(self.nodes@),
            num_edges: self.num_edges,
            values: value_views(self.init_values@),
            range: self.range@,
            two_pow: self.two_pow@,
            zero_check: self.zero_check@,
            sf_log: self.sf_log,
            table_size_log: self.table_size_log,
            ok: true,
        }
    }
}

/// One edge.
pub(crate) fn one_edge(a: EdgeId) -> (r: Vec<EdgeId>)
    ensures
        r@ == seq![a],
{
    let mut r: Vec<EdgeId> = Vec::new();
    r.push(a);
    r
}

/// Two edges.
pub(crate) fn two_edges(a: EdgeId, b: EdgeId) -> (r: Vec<EdgeId>)
    ensures
        r@ == seq![a, b],
{
    let mut r: Vec<EdgeId> = Vec::new();
    r.push(a);
    r.push(b);
    r
}

/// Three dimensions.
pub(crate) fn three_dims(a: usize, b: usize, c: usize) -> (r: Vec<usize>)
    ensures
        r@ == seq![a, b, c],
{
    let mut r: Vec<usize> = Vec::new();
    r.push(a);
    r.push(b);
    r.push(c);
    r
}

/// Four dimensions.
pub(crate) fn four_dims(a: usize, b: usize, c: usize, d: usize) -> (r: Vec<usize>)
    ensures
        r@ == seq![a, b, c, d],
{
    let mut r: Vec<usize> = Vec::new();
    r.push(a);
    r.push(b);
    r.push(c);
    r.push(d);
    r
}

impl DagBuilder {
    /// An empty graph for numbers with `sf_log` fractional bits and range checks of
    /// `table_size_log` bits.
    pub fn new(sf_log: usize, table_size_log: usize) -> (r: DagBuilder)
        ensures
            r@ == empty_graph(sf_log, table_size_log),
    {
        let r = DagBuilder {
            nodes: Vec::new(),
            num_edges: 0,
            init_values: Vec::new(),
            range: Vec::new(),
            two_pow: Vec::new(),
            zero_check: Vec::new(),
            sf_log,
            table_size_log,
        };
        proof {
            assert(node_views(r.nodes@) =~= seq![]);
            assert(value_views(r.init_values@) =~= seq![]);
        }
        r
    }

    /// Records what is known of the next edge.
    pub(crate) fn push_value(&mut self, w: Witness)
        ensures
            final(self)@ == old(self)@.with_value(w@),
    {
        let ghost before = self.init_values@;
        self.init_values.push(Some(w));
        assert(value_views(self.init_values@) =~= value_views(before).push(Some(w@)));
    }

    /// What is known of the value on an edge.
    pub(crate) fn known_value(&self, e: EdgeId) -> (r: &Witness)
        requires
            self@.known(e),
        ensures
            r@ == self@.value(e),
    {
        assert(self@.values[e as int] == value_view(self.init_values@[e as int]));
        self.init_values[e].as_ref().unwrap()
    }

    /// The shape of the value on an edge.
    pub(crate) fn shape_of(&self, e: EdgeId) -> (r: Vec<usize>)
        requires
            self@.known(e),
        ensures
            r@ == self@.value(e).shape,
    {
        copy_words(self.known_value(e).shape.as_slice())
    }

    /// A graph input, whose value is not known.
    pub fn input(&mut self, shape: Vec<usize>, data_type: DataType) -> (r: EdgeId)
        requires
            old(self)@.input(shape@, data_type).0.ok,
        ensures
            (final(self)@, r) == old(self)@.input(shape@, data_type),
    {
        let sf = if data_type == DataType::Float {
            self.sf_log
        } else {
            0
        };
        let e = self.num_edges;
        self.push_value(Witness::new_wo_data(shape, data_type, sf, Role::Input));
        self.num_edges = self.num_edges + 1;
        e
    }

    /// A constant.
    pub fn param(&mut self, t: Witness) -> (r: EdgeId)
        requires
            old(self)@.param(t@).0.ok,
        ensures
            (final(self)@, r) == old(self)@.param(t@),
    {
        let e = self.num_edges;
        self.push_value(t);
        self.num_edges = self.num_edges + 1;
        e
    }

    /// Adds a node; its outputs are new edges.
    pub fn add_gkr_node(
        &mut self,
        inps: Vec<EdgeId>,
        basicblock: BasicBlockType,
    ) -> (r: Vec<EdgeId>)
        requires
            old(self)@.with_node(inps@, basicblock@).0.ok,
        ensures
            (final(self)@, r@) == old(self)@.with_node(inps@, basicblock@),
    {
        let nid = self.nodes.len();
        let eid = self.num_edges;
        let count = basicblock.out_arity();
        let ghost op = basicblock@;
        assert(count == op_arity(op));
        let mut outs: Vec<EdgeId> = Vec::new();
        let mut again: Vec<EdgeId> = Vec::new();
        let mut i: usize = 0;
        while i < count
            invariant
                i <= count,
                eid + count <= usize::MAX,
                outs@ == Seq::new(i as nat, |i: int| (eid + i) as usize),
                again@ == outs@,
            decreases count - i,
        {
            outs.push(eid + i);
            again.push(eid + i);
            i += 1;
        }
        let ghost before = self.nodes@;
        let node = Node { id: nid, kind: basicblock, inputs: inps, outputs: again };
        self.nodes.push(node);
        self.num_edges = eid + count;
        assert(node_views(self.nodes@) =~= node_views(before).push(node@));
        outs
    }

    /// Checks that a tensor has no negative entries.
    pub fn add_nonneg_node(&mut self, a: EdgeId)
        requires
            old(self)@.nonneg(a).ok,
        ensures
            final(self)@ == old(self)@.nonneg(a),
    {
        proof {
            reveal(Graph::nonneg);
        }
        let nid = self.nodes.len();
        self.range.push(nid);
        let tsl = self.table_size_log;
        let _ = self.add_gkr_node(
            one_edge(a),
            BasicBlockType::NonNegative(NonNegative { table_size_log: tsl }),
        );
        self.push_value(
            Witness::new_wo_data(one_edge(1), DataType::Float, 0, Role::Auxiliary),
        );
    }

    /// Asserts that a tensor is zero.
    pub fn add_zero_check_node(&mut self, a: EdgeId)
        requires
            old(self)@.assert_zero(a).ok,
        ensures
            final(self)@ == old(self)@.assert_zero(a),
    {
        proof {
            reveal(Graph::assert_zero);
        }
        let nid = self.nodes.len();
        self.zero_check.push(nid);
        let _ = self.add_gkr_node(one_edge(a), BasicBlockType::ZeroCheck(ZeroCheck));
        self.push_value(
            Witness::new_wo_data(one_edge(1), DataType::Float, 0, Role::Auxiliary),
        );
    }

    /// Reads a tensor with another shape, which is not checked.
    pub fn change_shape(&mut self, a: EdgeId, shape: Vec<usize>) -> (r: EdgeId)
        requires
            old(self)@.change_shape(a, shape@).0.ok,
        ensures
            (final(self)@, r) == old(self)@.change_shape(a, shape@),
    {
        proof {
            reveal(Graph::change_shape);
        }
        let v = self.known_value(a);
        let (data_type, sf) = (v.data_type, v.sf);
        let new_shape = copy_words(shape.as_slice());
        let outs = self.add_gkr_node(
            one_edge(a),
            BasicBlockType::ChangeShape(ChangeShape { new_shape }),
        );
        self.push_value(Witness::new_wo_data(shape, data_type, sf, Role::Output));
        outs[0]
    }

    /// Changes the number of fractional bits of a tensor.
    pub fn scale(&mut self, a: EdgeId, input_sf: usize, output_sf: usize) -> (r: Vec<EdgeId>)
        requires
            old(self)@.scale(a, input_sf, output_sf).0.ok,
        ensures
            (final(self)@, r@) == old(self)@.scale(a, input_sf, output_sf),
            r@.len() == 2,
    {
        proof {
            reveal(Graph::scale);
        }
        let shape = self.shape_of(a);
        let data_type = self.known_value(a).data_type;
        let nid = self.nodes.len();
        let kind = if input_sf > output_sf {
            BasicBlockType::ScaleDown(ScaleDown { input_sf, output_sf })
        } else {
            BasicBlockType::ScaleUp(ScaleUp { input_sf, output_sf })
        };
        self.push_value(Witness::new_wo_data(shape, data_type, output_sf, Role::Output));
        self.push_value(Witness::new_wo_data(one_edge(1), data_type, 0, Role::Auxiliary));
        self.range.push(nid);
        self.add_gkr_node(one_edge(a), kind)
    }

    /// A sum of products.
    pub fn einsum(&mut self, equation: String, inputs: Vec<EdgeId>, scale_back: bool) -> (r: Vec<
        EdgeId,
    >)
        requires
            old(self)@.einsum(equation@, inputs@, scale_back).0.ok,
        ensures
            (final(self)@, r@) == old(self)@.einsum(equation@, inputs@, scale_back),
            r@.len() >= 1,
    {
        self.einsum_str(equation.as_str(), inputs, scale_back)
    }

    /// A sum of products.
    pub(crate) fn einsum_str(
        &mut self,
        equation: &str,
        inputs: Vec<EdgeId>,
        scale_back: bool,
    ) -> (r: Vec<EdgeId>)
        requires
            old(self)@.einsum(equation@, inputs@, scale_back).0.ok,
        ensures
            (final(self)@, r@) == old(self)@.einsum(equation@, inputs@, scale_back),
            r@.len() >= 1,
    {
        proof {
            reveal(Graph::einsum);
        }
        let ghost g = self@;
        let ghost edges = inputs@;
        let mut shapes: Vec<Vec<usize>> = Vec::new();
        let mut input_sf: usize = 0;
        let mut i: usize = 0;
        assert(edges.take(0) =~= Seq::<usize>::empty());
        while i < inputs.len()
            invariant
                i <= inputs@.len(),
                self@ == g,
                edges == inputs@,
                g.all_known(edges),
                g.total_sf(edges) <= usize::MAX,
                shapes@.len() == i,
                forall|j: int| 0 <= j < i ==> (#[trigger] shapes@[j])@ == g.value(edges[j]).shape,
                input_sf == g.total_sf(edges.take(i as int)),
            decreases inputs.len() - i,
        {
            proof {
                assert(g.known(edges[i as int]));
                lemma_total_sf_take(g, edges, i + 1);
                assert(edges.take(i + 1).drop_last() =~= edges.take(i as int));
            }
            shapes.push(self.shape_of(inputs[i]));
            input_sf = input_sf + self.known_value(inputs[i]).sf;
            i += 1;
        }
        proof {
            assert(edges.take(i as int) =~= edges);
            assert(shapes_view(shapes@) =~= g.shapes(edges));
            assert(g.known(edges[0]));
        }
        let shape = output_shape(equation, &shapes).unwrap();
        let first = self.known_value(inputs[0]);
        let (data_type, output_sf) = (first.data_type, first.sf);
        let kind = BasicBlockType::Einsum(Einsum { equation: String::from_str(equation) });
        let outs = self.add_gkr_node(inputs, kind);
        self.push_value(Witness::new_wo_data(shape, data_type, input_sf, Role::Output));
        if scale_back {
            self.scale(outs[0], input_sf, output_sf)
        } else {
            outs
        }
    }

    /// The value of a sum or difference: computed where both inputs are constants.
    fn combine(&self, a: EdgeId, b: EdgeId, difference: bool) -> (r: Witness)
        requires
            self@.combinable(a, b),
        ensures
            r@ == self@.combination(a, b, difference),
    {
        let x = self.known_value(a);
        let y = self.known_value(b);
        if x.data.is_none() || y.data.is_none() {
            let shape = broadcast_shape(x.shape.as_slice(), y.shape.as_slice()).unwrap();
            return Witness::new_wo_data(shape, x.data_type, x.sf, Role::Output);
        }
        proof {
            lemma_witness_value(x);
            lemma_witness_value(y);
        }
        let mut inputs: Vec<&Witness> = Vec::new();
        inputs.push(x);
        inputs.push(y);
        let none: Vec<i128> = Vec::new();
        let mut outs: Vec<Witness> = if difference {
            Sub.run(inputs.as_slice(), none.as_slice())
        } else {
            Add.run(inputs.as_slice(), none.as_slice())
        };
        proof {
            let c = broadcasted(x.shape@, y.shape@);
            assert(difference_table(x, y, c) =~= combined_values(x@, y@, c, true));
            assert(sum_table(x, y, c) =~= combined_values(x@, y@, c, false));
        }
        let mut out = outs.pop().unwrap();
        out.role = Role::Constant;
        out
    }

    /// The sum of two tensors. Where a dimension that is broadcast is padded, the padding of the
    /// output is not zero: mask it.
    pub fn add(&mut self, a: EdgeId, b: EdgeId) -> (r: Vec<EdgeId>)
        requires
            old(self)@.plus(a, b).0.ok,
        ensures
            (final(self)@, r@) == old(self)@.plus(a, b),
            r@.len() == 1,
    {
        proof {
            reveal(Graph::plus);
        }
        let out = self.combine(a, b, false);
        self.push_value(out);
        self.add_gkr_node(two_edges(a, b), BasicBlockType::Add(Add))
    }

    /// The difference of two tensors. Where a dimension that is broadcast is padded, the padding of
    /// the output is not zero: mask it.
    pub fn sub(&mut self, a: EdgeId, b: EdgeId) -> (r: Vec<EdgeId>)
        requires
            old(self)@.minus(a, b).0.ok,
        ensures
            (final(self)@, r@) == old(self)@.minus(a, b),
            r@.len() == 1,
    {
        proof {
            reveal(Graph::minus);
        }
        let out = self.combine(a, b, true);
        self.push_value(out);
        self.add_gkr_node(two_edges(a, b), BasicBlockType::Sub(Sub))
    }

    /// A constant tensor.
    pub(crate) fn constant(&mut self, shape: Vec<usize>, data: Vec<Fr>, sf: usize) -> (r: EdgeId)
        requires
            num_vars(shape@) <= usize::MAX,
            old(self)@.constant(shape@, vals(data@), sf).0.ok,
        ensures
            (final(self)@, r) == old(self)@.constant(shape@, vals(data@), sf),
    {
        self.param(Witness::new(shape, data, DataType::Float, sf, Role::Constant))
    }

    /// Sets the padding of a tensor to zero.
    pub fn mask(&mut self, a: EdgeId, raw_mask_shape: Vec<usize>) -> (r: EdgeId)
        requires
            old(self)@.mask(a, raw_mask_shape@).0.ok,
        ensures
            (final(self)@, r) == old(self)@.mask(a, raw_mask_shape@),
    {
        proof {
            reveal(Graph::mask);
        }
        let s = letters(raw_mask_shape.len());
        let ones = padded_constant(raw_mask_shape.as_slice(), Fr::from_u64(1));
        assert(vals(ones@) == constant_table(raw_mask_shape@, 1));
        let e = self.constant(raw_mask_shape, ones, 0);
        let mut equation = String::from_str(s.as_str());
        equation.append(",");
        equation.append(s.as_str());
        equation.append("->");
        equation.append(s.as_str());
        let out = self.einsum(equation, two_edges(a, e), false);
        out[0]
    }

    /// Clamps a tensor from below, so that an exponential of it is within its table: the larger of
    /// the tensor and `-14 ln 2`, with the constraints that pin it down.
    pub fn clamp_lower(&mut self, x: EdgeId) -> (r: EdgeId)
        requires
            old(self)@.clamp_lower(x).0.ok,
        ensures
            (final(self)@, r) == old(self)@.clamp_lower(x),
    {
        proof {
            reveal(Graph::clamp_lower);
        }
        let shape = self.shape_of(x);
        let v = self.known_value(x);
        let (sf, data_type) = (v.sf, v.data_type);
        let n_flat = two_to(get_n(shape.as_slice()));
        let x = self.mask(x, copy_words(shape.as_slice()));
        let ln2_sf = scaled_ln2(sf);
        proof {
            vstd::arithmetic::power2::lemma2_to64();
            vstd::arithmetic::power2::lemma2_to64_rest();
            crate::math::lemma_pow2_mono(sf as nat, 59);
        }
        let c_val: u64 = 14 * ln2_sf;
        let y = self.add_gkr_node(
            one_edge(x),
            BasicBlockType::ClampLower(ClampLower { c: c_val }),
        )[0];
        self.push_value(
            Witness::new_wo_data(copy_words(shape.as_slice()), data_type, sf, Role::Output),
        );
        let delta = self.sub(y, x)[0];
        let delta_flat = self.change_shape(delta, one_edge(n_flat));
        self.add_nonneg_node(delta_flat);
        let c_data = padded_constant(shape.as_slice(), Fr::from_u64(c_val));
        let c_edge = self.param(Witness::new(shape, c_data, data_type, sf, Role::Constant));
        let u = self.add(y, c_edge)[0];
        let u_flat = self.change_shape(u, one_edge(n_flat));
        self.add_nonneg_node(u_flat);
        let z = self.einsum_str("a,a->a", two_edges(delta_flat, u_flat), false)[0];
        self.add_zero_check_node(z);
        y
    }

    /// Splits the last dimension into two or joins the last two into one.
    pub fn reshape(&mut self, a: EdgeId, shape: Vec<usize>) -> (r: Vec<EdgeId>)
        requires
            old(self)@.reshape(a, shape@).0.ok,
        ensures
            (final(self)@, r@) == old(self)@.reshape(a, shape@),
            r@.len() >= 1,
    {
        proof {
            reveal(Graph::reshape);
        }
        let original_shape = self.shape_of(a);
        if shape.len() > original_shape.len() {
            let mut split: Vec<usize> = Vec::new();
            split.push(original_shape[0]);
            split.push(original_shape[1]);
            split.push(shape[shape.len() - 1]);
            split.push(shape[shape.len() - 2]);
            let ghost m = original_shape@.len() as int;
            assert(split@ =~= seq![
                original_shape@[0],
                original_shape@[1],
                shape@[shape@.len() - 1],
                shape@[shape@.len() - 2],
            ]);
            let b = self.change_shape(a, split);
            self.einsum_str("bsdh->bshd", one_edge(b), false)
        } else {
            let o = self.einsum_str("bshd->bsdh", one_edge(a), false);
            let out = self.change_shape(o[0], shape);
            one_edge(out)
        }
    }

    /// The shift of the sigmoid.
    pub fn sigmoid_const(&mut self, a: EdgeId) -> (r: Vec<EdgeId>)
        requires
            old(self)@.sigmoid_const(a).0.ok,
        ensures
            (final(self)@, r@) == old(self)@.sigmoid_const(a),
            r@.len() == 1,
    {
        proof {
            reveal(Graph::sigmoid_const);
        }
        let shape = self.shape_of(a);
        let v = self.known_value(a);
        let (sf, data_type) = (v.sf, v.data_type);
        self.push_value(Witness::new_wo_data(shape, data_type, sf, Role::Output));
        self.add_gkr_node(one_edge(a), BasicBlockType::SigmoidConst(SigmoidConst))
    }

    /// The sigmoid.
    pub fn sigmoid(&mut self, a: EdgeId) -> (r: Vec<EdgeId>)
        requires
            old(self)@.sigmoid(a).0.ok,
        ensures
            (final(self)@, r@) == old(self)@.sigmoid(a),
            r@.len() == 1,
    {
        proof {
            reveal(Graph::sigmoid);
        }
        let sigmoid_c = self.sigmoid_const(a)[0];
        let scores = self.add(a, sigmoid_c)[0];
        let scores = self.exp(scores)[0];
        one_edge(scores)
    }

    /// The exponential by lookup in a committed table.
    pub fn nonstructured_exp(&mut self, a: EdgeId, t: EdgeId) -> (r: Vec<EdgeId>)
        requires
            old(self)@.nonstructured_exp(a, t).0.ok,
        ensures
            (final(self)@, r@) == old(self)@.nonstructured_exp(a, t),
            r@.len() == 2,
    {
        proof {
            reveal(Graph::nonstructured_exp);
        }
        let shape = self.shape_of(a);
        let data_type = self.known_value(a).data_type;
        let sf_log = self.sf_log;
        self.push_value(Witness::new_wo_data(shape, data_type, sf_log, Role::Output));
        self.push_value(Witness::new_wo_data(one_edge(1), data_type, 0, Role::Auxiliary));
        self.add_gkr_node(
            two_edges(a, t),
            BasicBlockType::NonStructuredExp(NonStructuredExp { sf_log }),
        )
    }

    /// A constant inside a shape, under a flat shape.
    fn constant_flat(&mut self, shape: &Vec<usize>, flat: usize, v: u64) -> (r: EdgeId)
        requires
            num_vars(shape@) < usize::BITS,
            old(self)@.constant_flat(shape@, seq![flat], v as int).0.ok,
        ensures
            (final(self)@, r) == old(self)@.constant_flat(shape@, seq![flat], v as int),
    {
        proof {
            reveal(Graph::constant_flat);
        }
        let data = padded_constant(shape.as_slice(), Fr::from_u64(v));
        let dims = one_edge(flat);
        proof {
            let l = crate::arith::ceil_log(flat as int);
            crate::arith::lemma_ceil_log(flat as int);
            assert(dims@.drop_last() =~= Seq::<usize>::empty());
            assert(num_vars(Seq::<usize>::empty()) == 0);
            assert(num_vars(dims@) == l);
            if l > usize::BITS {
                vstd::layout::unsigned_int_max_values();
                crate::math::lemma_pow2_mono(usize::BITS as nat, (l - 1) as nat);
            }
        }
        self.constant(dims, data, 15)
    }

    /// The exponential of a tensor that is not positive.
    pub fn exp(&mut self, a: EdgeId) -> (r: Vec<EdgeId>)
        requires
            old(self)@.exp(a).0.ok,
        ensures
            (final(self)@, r@) == old(self)@.exp(a),
            r@.len() == 1,
    {
        proof {
            reveal(Graph::exp);
        }
        let sf_log = self.sf_log;
        let a = self.clamp_lower(a);
        let shape = self.shape_of(a);
        let data_type = self.known_value(a).data_type;
        let flat = two_to(get_n(shape.as_slice()));
        let nid = self.nodes.len();
        self.push_value(
            Witness::new_wo_data(copy_words(shape.as_slice()), data_type, sf_log, Role::Output),
        );
        self.push_value(Witness::new_wo_data(one_edge(1), data_type, 0, Role::Auxiliary));
        self.range.push(nid);
        let outs = self.add_gkr_node(
            one_edge(a),
            BasicBlockType::ExpHelper(ExpHelper { sf_log }),
        );
        let r = self.scale(outs[0], sf_log, 15)[0];
        // 2^(-k)
        let nid = self.nodes.len();
        self.two_pow.push(nid);
        let power = self.add_gkr_node(one_edge(outs[1]), BasicBlockType::TwoPow(TwoPow))[0];
        self.push_value(
            Witness::new_wo_data(copy_words(shape.as_slice()), data_type, 15, Role::Output),
        );
        let power = self.change_shape(power, one_edge(flat));
        // 1/6, 1/2 and 1 with 15 fractional bits
        let sixth = self.constant_flat(&shape, flat, 5461);
        let half = self.constant_flat(&shape, flat, 16384);
        let one = self.constant_flat(&shape, flat, 32768);
        // 1 + r + r^2 (1/2 + r/6)
        let r = self.change_shape(r, one_edge(flat));
        let square = self.einsum_str("a,a->a", two_edges(r, r), true);
        let r_sixth = self.einsum_str("a,a->a", two_edges(r, sixth), true);
        let plus_half = self.add(r_sixth[0], half)[0];
        let high = self.einsum_str("a,a->a", two_edges(plus_half, square[0]), true);
        let with_r = self.add(high[0], r);
        let exp_r = self.add(with_r[0], one)[0];
        // 2^(-k) exp(r)
        let product = self.einsum_str("a,a->a", two_edges(power, exp_r), false);
        let scaled = self.scale(product[0], 30, sf_log)[0];
        let out = self.change_shape(scaled, shape);
        one_edge(out)
    }
}

impl DagBuilder {
    /// Applies a layer to some edges.
    pub fn pipe<Func: FnOnce(&mut DagBuilder, &[EdgeId]) -> Vec<EdgeId>>(
        &mut self,
        x: &[EdgeId],
        f: Func,
    ) -> (r: Vec<EdgeId>)
        requires
            forall|g: &mut DagBuilder| *g == *old(self) ==> #[trigger] call_requires(f, (g, x)),
        ensures
            exists|g: &mut DagBuilder|
                *g == *old(self) && *final(g) == *final(self) && #[trigger] call_ensures(
                    f,
                    (g, x),
                    r,
                ),
    {
        f(self, x)
    }
}

proof fn lemma_total_sf_take(g: Graph, edges: Seq<usize>, k: int)
    requires
        0 <= k <= edges.len(),
    ensures
        g.total_sf(edges.take(k)) <= g.total_sf(edges),
    decreases edges.len() - k,
{
    if k < edges.len() {
        lemma_total_sf_take(g, edges, k + 1);
        assert(edges.take(k + 1).drop_last() =~= edges.take(k));
    } else {
        assert(edges.take(k) =~= edges);
    }
}

} // verus!
