//! What every step of the construction of a graph keeps.
//!
//! A graph that is built from an empty one, each node from edges that are there already, can be
//! compiled; and no step changes what is there.
use crate::arith::num_vars;
use crate::dag::compile::{compilable, numbered, ranks, reads_from, writes};
use crate::dag::graph::{op_arity, Graph, NodeView, Op};
use crate::dag::llama::{all_have, layer_weights, AttentionEdges, Rotary};
use crate::dag::nanogpt::Heads;
use crate::dag::rotary::{rotation_fits, rotation_table};
use crate::witness::{empty_value, DataType, Role, Value};
use vstd::prelude::*;

verus! {

/// The outputs of the nodes are new edges: each is larger than the edges that the node and those
/// before it read, and than the outputs of the nodes before.
pub open spec fn in_sequence(nodes: Seq<NodeView>) -> bool {
    &&& forall|i: int, j: int, s: int, t: int|
        #![trigger nodes[i].inputs[s], nodes[j].outputs[t]]
        0 <= i <= j < nodes.len() && 0 <= s < nodes[i].inputs.len() && 0 <= t
            < nodes[j].outputs.len() ==> nodes[i].inputs[s] < nodes[j].outputs[t]
    &&& forall|i: int, j: int, s: int, t: int|
        #![trigger nodes[i].outputs[s], nodes[j].outputs[t]]
        0 <= i < nodes.len() && 0 <= j < nodes.len() && (i < j || i == j && s < t) && 0 <= s
            < nodes[i].outputs.len() && 0 <= t < nodes[j].outputs.len() ==> nodes[i].outputs[s]
            < nodes[j].outputs[t]
}

/// The marked nodes are there, and have the inputs that a claim is made for.
pub open spec fn marks_valid(g: Graph) -> bool {
    &&& forall|i: int|
        0 <= i < g.range.len() ==> #[trigger] g.range[i] < g.nodes.len() && (
        g.nodes[g.range[i] as int].op is NonNegative ==> g.nodes[g.range[i] as int].inputs.len()
            >= 1)
    &&& forall|i: int| 0 <= i < g.two_pow.len() ==> #[trigger] g.two_pow[i] < g.nodes.len()
    &&& forall|i: int|
        0 <= i < g.zero_check.len() ==> #[trigger] g.zero_check[i] < g.nodes.len()
            && g.nodes[g.zero_check[i] as int].inputs.len() >= 1
}

/// The graph was built step by step.
#[verifier::opaque]
pub open spec fn sound(g: Graph) -> bool {
    &&& g.ok
    &&& g.nodes.len() <= usize::MAX
    &&& g.values.len() == g.num_edges
    &&& forall|e: int| 0 <= e < g.values.len() ==> (#[trigger] g.values[e]) is Some
    &&& numbered(g.nodes, g.num_edges as int)
    &&& in_sequence(g.nodes)
    &&& marks_valid(g)
}

/// The second graph was built from the first, step by step, and everything in the first is still
/// there.
#[verifier::opaque]
pub open spec fn grown(g: Graph, h: Graph) -> bool {
    &&& sound(h)
    &&& g.num_edges <= h.num_edges
    &&& g.nodes.is_prefix_of(h.nodes)
    &&& g.values.is_prefix_of(h.values)
    &&& g.range.is_prefix_of(h.range)
    &&& g.two_pow.is_prefix_of(h.two_pow)
    &&& g.zero_check.is_prefix_of(h.zero_check)
    &&& g.sf_log == h.sf_log
    &&& g.table_size_log == h.table_size_log
}

/// A graph that was built step by step can be compiled.
pub proof fn lemma_sound_compilable(g: Graph)
    requires
        sound(g),
    ensures
        compilable(g),
{
    reveal(sound);
    let nodes = g.nodes;
    let rank = Seq::new(nodes.len(), |i: int| i as nat);
    assert forall|v: int, u: int|
        0 <= v < nodes.len() && 0 <= u < nodes.len() && #[trigger] reads_from(
            nodes,
            v,
            u,
        ) implies rank[u] < rank[v] by {
        let s = choose|s: int|
            0 <= s < nodes[v].inputs.len() && writes(nodes, u, #[trigger] nodes[v].inputs[s]);
        let e = nodes[v].inputs[s];
        let t = choose|t: int| 0 <= t < nodes[u].outputs.len() && nodes[u].outputs[t] == e;
        if v <= u {
            assert(nodes[v].inputs[s] < nodes[u].outputs[t]);
        }
    }
    assert(ranks(nodes, rank));
    assert forall|u: int| 0 <= u < nodes.len() implies (
    #[trigger] nodes[u]).outputs.no_duplicates() by {
        let o = nodes[u].outputs;
        assert forall|s: int, t: int| 0 <= s < o.len() && 0 <= t < o.len() && s != t implies o[s]
            != o[t] by {
            if s < t {
                assert(nodes[u].outputs[s] < nodes[u].outputs[t]);
            } else {
                assert(nodes[u].outputs[t] < nodes[u].outputs[s]);
            }
        }
    }
    assert forall|u: int, v: int, e: usize|
        #[trigger] writes(nodes, u, e) && #[trigger] writes(nodes, v, e) implies u == v by {
        let s = choose|s: int| 0 <= s < nodes[u].outputs.len() && nodes[u].outputs[s] == e;
        let t = choose|t: int| 0 <= t < nodes[v].outputs.len() && nodes[v].outputs[t] == e;
        if u < v {
            assert(nodes[u].outputs[s] < nodes[v].outputs[t]);
        } else if v < u {
            assert(nodes[v].outputs[t] < nodes[u].outputs[s]);
        }
    }
}

/// An empty graph is a beginning.
pub proof fn lemma_empty_sound(g: Graph)
    requires
        g.ok,
        g.nodes.len() == 0,
        g.num_edges == 0,
        g.values.len() == 0,
        g.range.len() == 0,
        g.two_pow.len() == 0,
        g.zero_check.len() == 0,
    ensures
        sound(g),
        grown(g, g),
{
    reveal(sound);
    reveal(grown);
}

/// Nothing changes in no step.
pub proof fn lemma_grown_self(g: Graph)
    requires
        sound(g),
    ensures
        grown(g, g),
{
    reveal(grown);
}

/// A new node that reads edges that are there already, with values for its outputs.
pub proof fn lemma_node_kept(base: Graph, g: Graph, h: Graph, inputs: Seq<usize>, op: Op)
    requires
        grown(base, g),
        h.ok,
        forall|s: int| 0 <= s < inputs.len() ==> #[trigger] inputs[s] < g.num_edges,
        inputs.len() >= 1,
        g.num_edges + op_arity(op) <= usize::MAX,
        g.nodes.len() < usize::MAX,
        h.nodes == g.with_node(inputs, op).0.nodes,
        h.num_edges == g.num_edges + op_arity(op),
        h.values.len() == h.num_edges,
        g.values.is_prefix_of(h.values),
        forall|e: int|
            g.num_edges <= e < h.num_edges ==> (#[trigger] h.values[e]) is Some,
        h.range == g.range || h.range == g.range.push(g.nodes.len() as usize),
        h.two_pow == g.two_pow || h.two_pow == g.two_pow.push(g.nodes.len() as usize),
        h.zero_check == g.zero_check || h.zero_check == g.zero_check.push(g.nodes.len() as usize),
        h.sf_log == g.sf_log,
        h.table_size_log == g.table_size_log,
    ensures
        grown(base, h),
{
    reveal(sound);
    reveal(grown);
    let n = g.nodes.len() as int;
    let node = h.nodes[n];
    assert(h.nodes == g.nodes.push(node));
    assert forall|e: int| 0 <= e < h.values.len() implies (#[trigger] h.values[e]) is Some by {
        if e < g.num_edges {
            assert(g.values[e] == h.values[e]);
        }
    }
    assert forall|i: int| 0 <= i < n implies h.nodes[i] == g.nodes[i] by {}
    assert(numbered(h.nodes, h.num_edges as int)) by {
        assert forall|i: int| 0 <= i < h.nodes.len() implies {
            &&& (#[trigger] h.nodes[i]).id == i
            &&& forall|s: int|
                0 <= s < h.nodes[i].inputs.len() ==> #[trigger] h.nodes[i].inputs[s] < h.num_edges
            &&& forall|s: int|
                0 <= s < h.nodes[i].outputs.len() ==> #[trigger] h.nodes[i].outputs[s]
                    < h.num_edges
        } by {
            if i < n {
                assert(g.nodes[i] == h.nodes[i]);
            }
        }
    }
    assert(in_sequence(h.nodes)) by {
        let nodes = h.nodes;
        assert forall|i: int, j: int, s: int, t: int|
            #![trigger nodes[i].inputs[s], nodes[j].outputs[t]]
            0 <= i <= j < nodes.len() && 0 <= s < nodes[i].inputs.len() && 0 <= t
                < nodes[j].outputs.len() implies nodes[i].inputs[s] < nodes[j].outputs[t] by {
            if j < n {
                assert(g.nodes[i].inputs[s] < g.nodes[j].outputs[t]);
            } else if i < n {
                assert(g.nodes[i].inputs[s] < g.num_edges);
            }
        }
        assert forall|i: int, j: int, s: int, t: int|
            #![trigger nodes[i].outputs[s], nodes[j].outputs[t]]
            0 <= i < nodes.len() && 0 <= j < nodes.len() && (i < j || i == j && s < t) && 0 <= s
                < nodes[i].outputs.len() && 0 <= t
                < nodes[j].outputs.len() implies nodes[i].outputs[s] < nodes[j].outputs[t] by {
            if j < n {
                assert(g.nodes[i].outputs[s] < g.nodes[j].outputs[t]);
            } else if i < n {
                assert(g.nodes[i].outputs[s] < g.num_edges);
            }
        }
    }
    assert(marks_valid(h)) by {
        assert forall|i: int| 0 <= i < h.range.len() implies #[trigger] h.range[i]
            < h.nodes.len() && (h.nodes[h.range[i] as int].op is NonNegative
            ==> h.nodes[h.range[i] as int].inputs.len() >= 1) by {
            if i < g.range.len() {
                assert(g.range[i] == h.range[i]);
            }
        }
        assert forall|i: int| 0 <= i < h.two_pow.len() implies #[trigger] h.two_pow[i]
            < h.nodes.len() by {
            if i < g.two_pow.len() {
                assert(g.two_pow[i] == h.two_pow[i]);
            }
        }
        assert forall|i: int| 0 <= i < h.zero_check.len() implies #[trigger] h.zero_check[i]
            < h.nodes.len() && h.nodes[h.zero_check[i] as int].inputs.len() >= 1 by {
            if i < g.zero_check.len() {
                assert(g.zero_check[i] == h.zero_check[i]);
            }
        }
    }
}

/// What is kept is built step by step, and has at least the edges that were there.
pub broadcast proof fn lemma_grown_edges(base: Graph, g: Graph)
    requires
        #[trigger] grown(base, g),
    ensures
        sound(g),
        base.num_edges <= g.num_edges,
        g.ok,
        g.values.len() == g.num_edges,
        g.sf_log == base.sf_log,
        g.table_size_log == base.table_size_log,
{
    reveal(sound);
    reveal(grown);
}

/// A condition that holds changes nothing.
pub broadcast proof fn lemma_need_kept(g: Graph, c: bool)
    requires
        (#[trigger] g.need(c)).ok,
    ensures
        g.need(c) == g,
{
}

/// A new edge that no node writes.
pub broadcast proof fn lemma_param_kept(base: Graph, g: Graph, t: Value)
    requires
        #[trigger] grown(base, g),
        (#[trigger] g.param(t)).0.ok,
    ensures
        grown(base, g.param(t).0),
        g.num_edges <= g.param(t).0.num_edges,
        g.param(t).1 < g.param(t).0.num_edges,
{
    reveal(sound);
    reveal(grown);
    let h = g.param(t).0;
    assert(h.nodes == g.nodes);
    assert(numbered(h.nodes, h.num_edges as int)) by {
        assert forall|i: int| 0 <= i < h.nodes.len() implies {
            &&& (#[trigger] h.nodes[i]).id == i
            &&& forall|s: int|
                0 <= s < h.nodes[i].inputs.len() ==> #[trigger] h.nodes[i].inputs[s] < h.num_edges
            &&& forall|s: int|
                0 <= s < h.nodes[i].outputs.len() ==> #[trigger] h.nodes[i].outputs[s]
                    < h.num_edges
        } by {
            assert(g.nodes[i] == h.nodes[i]);
        }
    }
    assert(marks_valid(h));
}

pub proof fn lemma_input_kept(base: Graph, g: Graph, shape: Seq<usize>, data_type: DataType)
    requires
        grown(base, g),
        g.input(shape, data_type).0.ok,
    ensures
        grown(base, g.input(shape, data_type).0),
        g.input(shape, data_type).1 < g.input(shape, data_type).0.num_edges,
{
    let v = g.input(shape, data_type).0.values.last()->0;
    let t = Value { role: Role::Constant, ..v };
    lemma_param_kept(base, g, t);
    reveal(sound);
    reveal(grown);
    let h = g.input(shape, data_type).0;
    let k = g.param(t).0;
    assert forall|e: int| 0 <= e < h.values.len() implies (#[trigger] h.values[e]) is Some by {
        assert(k.values[e] is Some);
    }
    assert(marks_valid(k));
    assert(marks_valid(h));
    assert(g.values.is_prefix_of(h.values));
}

pub broadcast proof fn lemma_nonneg_kept(base: Graph, g: Graph, a: usize)
    requires
        #[trigger] grown(base, g),
        (#[trigger] g.nonneg(a)).ok,
        a < g.num_edges,
    ensures
        grown(base, g.nonneg(a)),
        g.num_edges <= g.nonneg(a).num_edges,
{
    reveal(sound);
    reveal(grown);
    reveal(Graph::nonneg);
    lemma_node_kept(base, g, g.nonneg(a), seq![a], Op::NonNegative(g.table_size_log));
}

pub broadcast proof fn lemma_assert_zero_kept(base: Graph, g: Graph, a: usize)
    requires
        #[trigger] grown(base, g),
        (#[trigger] g.assert_zero(a)).ok,
        a < g.num_edges,
    ensures
        grown(base, g.assert_zero(a)),
        g.num_edges <= g.assert_zero(a).num_edges,
{
    reveal(sound);
    reveal(grown);
    reveal(Graph::assert_zero);
    lemma_node_kept(base, g, g.assert_zero(a), seq![a], Op::ZeroCheck);
}

pub broadcast proof fn lemma_change_shape_kept(base: Graph, g: Graph, a: usize, shape: Seq<usize>)
    requires
        #[trigger] grown(base, g),
        (#[trigger] g.change_shape(a, shape)).0.ok,
    ensures
        grown(base, g.change_shape(a, shape).0),
        g.num_edges <= g.change_shape(a, shape).0.num_edges,
        g.change_shape(a, shape).1 < g.change_shape(a, shape).0.num_edges,
{
    reveal(sound);
    reveal(grown);
    reveal(Graph::change_shape);
    lemma_node_kept(base, g, g.change_shape(a, shape).0, seq![a], Op::ChangeShape(shape));
}

pub broadcast proof fn lemma_scale_kept(base: Graph, g: Graph, a: usize, i: usize, o: usize)
    requires
        #[trigger] grown(base, g),
        (#[trigger] g.scale(a, i, o)).0.ok,
    ensures
        grown(base, g.scale(a, i, o).0),
        g.num_edges <= g.scale(a, i, o).0.num_edges,
        g.scale(a, i, o).1.len() == 2,
        g.scale(a, i, o).1[0] < g.scale(a, i, o).0.num_edges,
        g.scale(a, i, o).1[1] < g.scale(a, i, o).0.num_edges,
{
    reveal(sound);
    reveal(grown);
    reveal(Graph::scale);
    lemma_node_kept(base, g, g.scale(a, i, o).0, seq![a], if i > o {
        Op::ScaleDown(i, o)
    } else {
        Op::ScaleUp(i, o)
    });
}

pub broadcast proof fn lemma_plus_kept(base: Graph, g: Graph, a: usize, b: usize)
    requires
        #[trigger] grown(base, g),
        (#[trigger] g.plus(a, b)).0.ok,
    ensures
        grown(base, g.plus(a, b).0),
        g.num_edges <= g.plus(a, b).0.num_edges,
        g.plus(a, b).1.len() == 1,
        g.plus(a, b).1[0] < g.plus(a, b).0.num_edges,
{
    reveal(sound);
    reveal(grown);
    reveal(Graph::plus);
    lemma_node_kept(base, g, g.plus(a, b).0, seq![a, b], Op::Add);
}

pub broadcast proof fn lemma_minus_kept(base: Graph, g: Graph, a: usize, b: usize)
    requires
        #[trigger] grown(base, g),
        (#[trigger] g.minus(a, b)).0.ok,
    ensures
        grown(base, g.minus(a, b).0),
        g.num_edges <= g.minus(a, b).0.num_edges,
        g.minus(a, b).1.len() == 1,
        g.minus(a, b).1[0] < g.minus(a, b).0.num_edges,
{
    reveal(sound);
    reveal(grown);
    reveal(Graph::minus);
    lemma_node_kept(base, g, g.minus(a, b).0, seq![a, b], Op::Sub);
}

pub broadcast proof fn lemma_sigmoid_const_kept(base: Graph, g: Graph, a: usize)
    requires
        #[trigger] grown(base, g),
        (#[trigger] g.sigmoid_const(a)).0.ok,
    ensures
        grown(base, g.sigmoid_const(a).0),
        g.num_edges <= g.sigmoid_const(a).0.num_edges,
        g.sigmoid_const(a).1.len() == 1,
        g.sigmoid_const(a).1[0] < g.sigmoid_const(a).0.num_edges,
{
    reveal(sound);
    reveal(grown);
    reveal(Graph::sigmoid_const);
    lemma_node_kept(base, g, g.sigmoid_const(a).0, seq![a], Op::SigmoidConst);
}

pub broadcast proof fn lemma_nonstructured_exp_kept(base: Graph, g: Graph, a: usize, t: usize)
    requires
        #[trigger] grown(base, g),
        (#[trigger] g.nonstructured_exp(a, t)).0.ok,
        t < g.num_edges,
    ensures
        grown(base, g.nonstructured_exp(a, t).0),
        g.num_edges <= g.nonstructured_exp(a, t).0.num_edges,
        g.nonstructured_exp(a, t).1.len() == 2,
        g.nonstructured_exp(a, t).1[0] < g.nonstructured_exp(a, t).0.num_edges,
        g.nonstructured_exp(a, t).1[1] < g.nonstructured_exp(a, t).0.num_edges,
{
    reveal(sound);
    reveal(grown);
    reveal(Graph::nonstructured_exp);
    lemma_node_kept(
        base,
        g,
        g.nonstructured_exp(a, t).0,
        seq![a, t],
        Op::NonStructuredExp(g.sf_log),
    );
}

pub broadcast proof fn lemma_rms_reciprocal_kept(base: Graph, g: Graph, x: usize)
    requires
        #[trigger] grown(base, g),
        (#[trigger] g.rms_reciprocal(x)).0.ok,
        x < g.num_edges,
    ensures
        grown(base, g.rms_reciprocal(x).0),
        g.num_edges <= g.rms_reciprocal(x).0.num_edges,
        g.rms_reciprocal(x).1.len() == 1,
        g.rms_reciprocal(x).1[0] < g.rms_reciprocal(x).0.num_edges,
{
    reveal(sound);
    reveal(grown);
    reveal(Graph::rms_reciprocal);
    lemma_node_kept(base, g, g.rms_reciprocal(x).0, seq![x], Op::RMSReciprocal);
}

pub broadcast proof fn lemma_div_const_kept(base: Graph, g: Graph, a: usize, c: usize)
    requires
        #[trigger] grown(base, g),
        (#[trigger] g.div_const(a, c)).0.ok,
    ensures
        grown(base, g.div_const(a, c).0),
        g.num_edges <= g.div_const(a, c).0.num_edges,
        g.div_const(a, c).1.len() == 1,
        g.div_const(a, c).1[0] < g.div_const(a, c).0.num_edges,
{
    reveal(sound);
    reveal(grown);
    reveal(Graph::div_const);
    lemma_node_kept(base, g, g.div_const(a, c).0, seq![a], Op::DivConst(c));
}

pub broadcast proof fn lemma_softmax_const_kept(base: Graph, g: Graph, a: usize)
    requires
        #[trigger] grown(base, g),
        (#[trigger] g.softmax_const(a)).0.ok,
    ensures
        grown(base, g.softmax_const(a).0),
        g.num_edges <= g.softmax_const(a).0.num_edges,
        g.softmax_const(a).1.len() == 1,
        g.softmax_const(a).1[0] < g.softmax_const(a).0.num_edges,
{
    reveal(sound);
    reveal(grown);
    reveal(Graph::softmax_const);
    lemma_node_kept(
        base,
        g,
        g.softmax_const(a).0,
        seq![a],
        Op::SoftmaxConst(g.value(a).shape.last()),
    );
}

pub broadcast proof fn lemma_einsum_kept(
    base: Graph,
    g: Graph,
    e: Seq<char>,
    inputs: Seq<usize>,
    back: bool,
)
    requires
        #[trigger] grown(base, g),
        (#[trigger] g.einsum(e, inputs, back)).0.ok,
    ensures
        grown(base, g.einsum(e, inputs, back).0),
        g.num_edges <= g.einsum(e, inputs, back).0.num_edges,
        g.einsum(e, inputs, back).1.len() >= 1,
        g.einsum(e, inputs, back).1[0] < g.einsum(e, inputs, back).0.num_edges,
{
    crate::dag::graph::lemma_einsum_ok(g, e, inputs, back);
    let h = g.einsum(e, inputs, false).0;
    let out = g.einsum(e, inputs, false).1[0];
    let first = g.value(inputs[0]);
    let input_sf = g.total_sf(inputs) as usize;
    assert(h.ok && (back ==> g.einsum(e, inputs, back) == h.scale(out, input_sf, first.sf))) by {
        reveal(Graph::einsum);
        reveal(Graph::scale);
    }
    assert(grown(base, h) && out < h.num_edges && g.num_edges <= h.num_edges && g.einsum(
        e,
        inputs,
        false,
    ).1.len() == 1) by {
        reveal(sound);
        reveal(grown);
        reveal(Graph::einsum);
        assert forall|s: int| 0 <= s < inputs.len() implies #[trigger] inputs[s]
            < g.num_edges by {
            assert(g.known(inputs[s]));
        }
        lemma_node_kept(base, g, h, inputs, Op::Einsum(e));
    }
    if back {
        lemma_scale_kept(base, h, out, input_sf, first.sf);
    }
}

/// What the simple steps keep.
pub broadcast group group_kept {
    lemma_grown_edges,
    lemma_need_kept,
    lemma_param_kept,
    lemma_nonneg_kept,
    lemma_assert_zero_kept,
    lemma_change_shape_kept,
    lemma_scale_kept,
    lemma_einsum_kept,
    lemma_plus_kept,
    lemma_minus_kept,
    lemma_sigmoid_const_kept,
    lemma_nonstructured_exp_kept,
    lemma_rms_reciprocal_kept,
    lemma_div_const_kept,
    lemma_softmax_const_kept,
}

/// What a mask keeps.
pub broadcast proof fn lemma_mask_kept(base: Graph, g: Graph, a: usize, shape: Seq<usize>)
    requires
        #[trigger] grown(base, g),
        (#[trigger] g.mask(a, shape)).0.ok,
    ensures
        grown(base, g.mask(a, shape).0),
        g.num_edges <= g.mask(a, shape).0.num_edges,
        g.mask(a, shape).1 < g.mask(a, shape).0.num_edges,
{
    broadcast use group_kept;
    broadcast use crate::dag::graph::group_ok;

    reveal(Graph::mask);
}

pub broadcast proof fn lemma_constant_flat_kept(
    base: Graph,
    g: Graph,
    shape: Seq<usize>,
    flat: Seq<usize>,
    v: int,
)
    requires
        #[trigger] grown(base, g),
        (#[trigger] g.constant_flat(shape, flat, v)).0.ok,
    ensures
        grown(base, g.constant_flat(shape, flat, v).0),
        g.num_edges <= g.constant_flat(shape, flat, v).0.num_edges,
        g.constant_flat(shape, flat, v).1 < g.constant_flat(shape, flat, v).0.num_edges,
{
    broadcast use group_kept;
    broadcast use crate::dag::graph::group_ok;

    reveal(Graph::constant_flat);
}

pub broadcast proof fn lemma_clamp_lower_kept(base: Graph, g: Graph, x: usize)
    requires
        #[trigger] grown(base, g),
        (#[trigger] g.clamp_lower(x)).0.ok,
    ensures
        grown(base, g.clamp_lower(x).0),
        g.num_edges <= g.clamp_lower(x).0.num_edges,
        g.clamp_lower(x).1 < g.clamp_lower(x).0.num_edges,
{
    broadcast use group_kept;
    broadcast use crate::dag::graph::group_ok;
    broadcast use lemma_mask_kept;

    reveal(Graph::clamp_lower);
    let v = g.value(x);
    let c = Graph::clamp_bound(v.sf);
    let g1 = g.need(g.known(x) && v.sf < 60 && num_vars(v.shape) < usize::BITS);
    let (g2, m) = g1.mask(x, v.shape);
    let (g3, outs) = g2.with_node(seq![m], Op::ClampLower(c as u64));
    let g4 = g3.with_value(empty_value(v.shape, v.data_type, v.sf, Role::Output));
    assert(g2.ok && g4.ok);
    lemma_node_kept(base, g2, g4, seq![m], Op::ClampLower(c as u64));
}

pub broadcast proof fn lemma_exp_kept(base: Graph, g: Graph, a: usize)
    requires
        #[trigger] grown(base, g),
        (#[trigger] g.exp(a)).0.ok,
    ensures
        grown(base, g.exp(a).0),
        g.num_edges <= g.exp(a).0.num_edges,
        g.exp(a).1.len() >= 1,
        g.exp(a).1[0] < g.exp(a).0.num_edges,
{
    broadcast use group_kept;
    broadcast use crate::dag::graph::group_ok;
    broadcast use lemma_clamp_lower_kept;
    broadcast use lemma_constant_flat_kept;

    reveal(Graph::exp);
    let (g1, x) = g.clamp_lower(a);
    let v = g1.value(x);
    let g2 = g1.need(g1.known(x) && num_vars(v.shape) < usize::BITS);
    let g3 = g2.with_value(empty_value(v.shape, v.data_type, g.sf_log, Role::Output));
    let g4 = g3.with_value(empty_value(seq![1usize], v.data_type, 0, Role::Auxiliary));
    let (g5, outs) = g4.with_range().with_node(seq![x], Op::ExpHelper(g.sf_log));
    assert(g2.ok && g5.ok);
    lemma_node_kept(base, g2, g5, seq![x], Op::ExpHelper(g.sf_log));
    let (g6, r) = g5.scale(outs[0], g.sf_log, 15);
    let (g7, power) = g6.with_two_pow().with_node(seq![outs[1]], Op::TwoPow);
    let g8 = g7.with_value(empty_value(v.shape, v.data_type, 15, Role::Output));
    assert(g6.ok && g8.ok);
    lemma_node_kept(base, g6, g8, seq![outs[1]], Op::TwoPow);
}

pub broadcast proof fn lemma_sigmoid_kept(base: Graph, g: Graph, a: usize)
    requires
        #[trigger] grown(base, g),
        (#[trigger] g.sigmoid(a)).0.ok,
    ensures
        grown(base, g.sigmoid(a).0),
        g.num_edges <= g.sigmoid(a).0.num_edges,
        g.sigmoid(a).1.len() >= 1,
        g.sigmoid(a).1[0] < g.sigmoid(a).0.num_edges,
{
    broadcast use group_kept;
    broadcast use crate::dag::graph::group_ok;
    broadcast use lemma_exp_kept;

    reveal(Graph::sigmoid);
}

pub broadcast proof fn lemma_reshape_kept(base: Graph, g: Graph, a: usize, shape: Seq<usize>)
    requires
        #[trigger] grown(base, g),
        (#[trigger] g.reshape(a, shape)).0.ok,
    ensures
        grown(base, g.reshape(a, shape).0),
        g.num_edges <= g.reshape(a, shape).0.num_edges,
        g.reshape(a, shape).1.len() >= 1,
        g.reshape(a, shape).1[0] < g.reshape(a, shape).0.num_edges,
{
    broadcast use group_kept;
    broadcast use crate::dag::graph::group_ok;

    reveal(Graph::reshape);
}

/// What the compound steps keep.
pub broadcast group group_compound_kept {
    lemma_mask_kept,
    lemma_clamp_lower_kept,
    lemma_exp_kept,
    lemma_sigmoid_kept,
    lemma_reshape_kept,
}

pub broadcast proof fn lemma_scalar_kept(base: Graph, g: Graph, v: u64, sf: usize)
    requires
        #[trigger] grown(base, g),
        (#[trigger] g.scalar(v, sf)).0.ok,
    ensures
        grown(base, g.scalar(v, sf).0),
        g.num_edges <= g.scalar(v, sf).0.num_edges,
        g.scalar(v, sf).1 < g.scalar(v, sf).0.num_edges,
{
    broadcast use group_kept;
    broadcast use crate::dag::graph::group_ok;

    reveal(Graph::scalar);
}

pub broadcast proof fn lemma_unit_kept(base: Graph, g: Graph, sf: usize)
    requires
        #[trigger] grown(base, g),
        (#[trigger] g.unit(sf)).0.ok,
    ensures
        grown(base, g.unit(sf).0),
        g.num_edges <= g.unit(sf).0.num_edges,
        g.unit(sf).1 < g.unit(sf).0.num_edges,
{
    broadcast use group_kept;
    broadcast use crate::dag::graph::group_ok;
    broadcast use lemma_scalar_kept;
    broadcast use crate::dag::llama::group_llama_ok;

    reveal(Graph::unit);
}

pub broadcast proof fn lemma_within_kept(base: Graph, g: Graph, d: usize, t: usize)
    requires
        #[trigger] grown(base, g),
        (#[trigger] g.within(d, t)).ok,
    ensures
        grown(base, g.within(d, t)),
        g.num_edges <= g.within(d, t).num_edges,
{
    broadcast use group_kept;
    broadcast use crate::dag::graph::group_ok;

    reveal(Graph::within);
}

pub broadcast proof fn lemma_reciprocal_kept(base: Graph, g: Graph, a: usize)
    requires
        #[trigger] grown(base, g),
        (#[trigger] g.reciprocal(a)).0.ok,
    ensures
        grown(base, g.reciprocal(a).0),
        g.num_edges <= g.reciprocal(a).0.num_edges,
        g.reciprocal(a).1.len() >= 1,
        g.reciprocal(a).1[0] < g.reciprocal(a).0.num_edges,
{
    broadcast use group_kept;
    broadcast use crate::dag::graph::group_ok;
    broadcast use lemma_scalar_kept;
    broadcast use lemma_unit_kept;
    broadcast use lemma_within_kept;
    broadcast use crate::dag::llama::group_llama_ok;

    reveal(Graph::reciprocal);
    let v = g.value(a);
    let g1 = g.need(g.known(a) && v.shape.len() <= 26);
    let (g2, r) = g1.with_value(
        empty_value(v.shape, v.data_type, v.sf, Role::Auxiliary),
    ).with_node(seq![a], Op::Reciprocal);
    assert(g1.ok && g2.ok);
    lemma_node_kept(base, g1, g2, seq![a], Op::Reciprocal);
}

pub broadcast proof fn lemma_swap_pairs_kept(base: Graph, g: Graph, a: usize)
    requires
        #[trigger] grown(base, g),
        (#[trigger] g.swap_pairs(a)).0.ok,
    ensures
        grown(base, g.swap_pairs(a).0),
        g.num_edges <= g.swap_pairs(a).0.num_edges,
        g.swap_pairs(a).1.len() >= 1,
        g.swap_pairs(a).1[0] < g.swap_pairs(a).0.num_edges,
{
    broadcast use group_kept;
    broadcast use crate::dag::graph::group_ok;

    reveal(Graph::swap_pairs);
}

pub broadcast proof fn lemma_rotate_kept(
    base: Graph,
    g: Graph,
    a: usize,
    swapped: usize,
    cos: usize,
    sin: usize,
)
    requires
        #[trigger] grown(base, g),
        (#[trigger] g.rotate(a, swapped, cos, sin)).0.ok,
    ensures
        grown(base, g.rotate(a, swapped, cos, sin).0),
        g.num_edges <= g.rotate(a, swapped, cos, sin).0.num_edges,
        g.rotate(a, swapped, cos, sin).1.len() >= 1,
        g.rotate(a, swapped, cos, sin).1[0] < g.rotate(a, swapped, cos, sin).0.num_edges,
{
    broadcast use group_kept;
    broadcast use crate::dag::graph::group_ok;

    reveal(Graph::rotate);
}

pub broadcast proof fn lemma_rope_kept(
    base: Graph,
    g: Graph,
    a: usize,
    cosines: Seq<i64>,
    sines: Seq<i64>,
)
    requires
        #[trigger] grown(base, g),
        (#[trigger] g.rope(a, cosines, sines)).0.ok,
    ensures
        grown(base, g.rope(a, cosines, sines).0),
        g.num_edges <= g.rope(a, cosines, sines).0.num_edges,
        g.rope(a, cosines, sines).1.len() >= 1,
        g.rope(a, cosines, sines).1[0] < g.rope(a, cosines, sines).0.num_edges,
{
    broadcast use group_kept;
    broadcast use crate::dag::graph::group_ok;
    broadcast use lemma_swap_pairs_kept;
    broadcast use lemma_rotate_kept;
    broadcast use crate::dag::llama::group_llama_ok;

    reveal(Graph::rope);
}

pub broadcast proof fn lemma_rope_with_vecs_kept(
    base: Graph,
    g: Graph,
    a: usize,
    cos: usize,
    sin: usize,
)
    requires
        #[trigger] grown(base, g),
        (#[trigger] g.rope_with_vecs(a, cos, sin)).0.ok,
    ensures
        grown(base, g.rope_with_vecs(a, cos, sin).0),
        g.num_edges <= g.rope_with_vecs(a, cos, sin).0.num_edges,
        g.rope_with_vecs(a, cos, sin).1.len() >= 1,
        g.rope_with_vecs(a, cos, sin).1[0] < g.rope_with_vecs(a, cos, sin).0.num_edges,
{
    broadcast use group_kept;
    broadcast use crate::dag::graph::group_ok;
    broadcast use lemma_swap_pairs_kept;
    broadcast use lemma_rotate_kept;
    broadcast use crate::dag::llama::group_llama_ok;

    reveal(Graph::rope_with_vecs);
}

pub broadcast proof fn lemma_causal_mask_kept(base: Graph, g: Graph, scores: usize, seq_len: usize)
    requires
        #[trigger] grown(base, g),
        (#[trigger] g.causal_mask(scores, seq_len)).0.ok,
    ensures
        grown(base, g.causal_mask(scores, seq_len).0),
        g.num_edges <= g.causal_mask(scores, seq_len).0.num_edges,
        g.causal_mask(scores, seq_len).1 < g.causal_mask(scores, seq_len).0.num_edges,
{
    broadcast use group_kept;
    broadcast use crate::dag::graph::group_ok;

    reveal(Graph::causal_mask);
}

pub broadcast proof fn lemma_checked_mean_kept(
    base: Graph,
    g: Graph,
    sum: usize,
    n: usize,
    shape: Seq<usize>,
)
    requires
        #[trigger] grown(base, g),
        (#[trigger] g.checked_mean(sum, n, shape)).0.ok,
    ensures
        grown(base, g.checked_mean(sum, n, shape).0),
        g.num_edges <= g.checked_mean(sum, n, shape).0.num_edges,
        g.checked_mean(sum, n, shape).1 < g.checked_mean(sum, n, shape).0.num_edges,
{
    broadcast use group_kept;
    broadcast use crate::dag::graph::group_ok;
    broadcast use lemma_scalar_kept;
    broadcast use lemma_within_kept;
    broadcast use crate::dag::llama::group_llama_ok;

    reveal(Graph::checked_mean);
}

pub broadcast proof fn lemma_rms_norm_kept(base: Graph, g: Graph, x: usize, w: usize)
    requires
        #[trigger] grown(base, g),
        (#[trigger] g.rms_norm(x, w)).0.ok,
    ensures
        grown(base, g.rms_norm(x, w).0),
        g.num_edges <= g.rms_norm(x, w).0.num_edges,
        g.rms_norm(x, w).1.len() >= 1,
        g.rms_norm(x, w).1[0] < g.rms_norm(x, w).0.num_edges,
{
    broadcast use group_kept;
    broadcast use crate::dag::graph::group_ok;
    broadcast use lemma_scalar_kept;
    broadcast use lemma_unit_kept;
    broadcast use lemma_within_kept;
    broadcast use lemma_checked_mean_kept;
    broadcast use crate::dag::llama::group_llama_ok;
    broadcast use crate::dag::llama::group_layer_ok;

    reveal(Graph::rms_norm);
}

pub broadcast proof fn lemma_gated_mlp_kept(
    base: Graph,
    g: Graph,
    x: usize,
    a: usize,
    b: usize,
    c: usize,
)
    requires
        #[trigger] grown(base, g),
        (#[trigger] g.gated_mlp(x, a, b, c)).0.ok,
    ensures
        grown(base, g.gated_mlp(x, a, b, c).0),
        g.num_edges <= g.gated_mlp(x, a, b, c).0.num_edges,
        g.gated_mlp(x, a, b, c).1.len() >= 1,
        g.gated_mlp(x, a, b, c).1[0] < g.gated_mlp(x, a, b, c).0.num_edges,
{
    broadcast use group_kept;
    broadcast use crate::dag::graph::group_ok;
    broadcast use group_compound_kept;

    reveal(Graph::gated_mlp);
}

pub broadcast proof fn lemma_heads_kept(base: Graph, g: Graph, x: usize, heads: Seq<usize>)
    requires
        #[trigger] grown(base, g),
        (#[trigger] g.heads(x, heads)).0.ok,
    ensures
        grown(base, g.heads(x, heads).0),
        g.num_edges <= g.heads(x, heads).0.num_edges,
        g.heads(x, heads).1 < g.heads(x, heads).0.num_edges,
{
    broadcast use group_kept;
    broadcast use crate::dag::graph::group_ok;
    broadcast use group_compound_kept;

    reveal(Graph::heads);
}

pub broadcast proof fn lemma_projections_kept(
    base: Graph,
    g: Graph,
    x: usize,
    w: AttentionEdges,
    heads: Seq<usize>,
)
    requires
        #[trigger] grown(base, g),
        (#[trigger] g.projections(x, w, heads)).0.ok,
    ensures
        grown(base, g.projections(x, w, heads).0),
        g.num_edges <= g.projections(x, w, heads).0.num_edges,
        g.projections(x, w, heads).1.0 < g.projections(x, w, heads).0.num_edges,
        g.projections(x, w, heads).1.1 < g.projections(x, w, heads).0.num_edges,
        g.projections(x, w, heads).1.2 < g.projections(x, w, heads).0.num_edges,
{
    broadcast use group_kept;
    broadcast use crate::dag::graph::group_ok;
    broadcast use lemma_heads_kept;
    broadcast use crate::dag::llama::group_layer_ok;

    reveal(Graph::projections);
}

pub broadcast proof fn lemma_attend_kept(
    base: Graph,
    g: Graph,
    parts: (usize, usize, usize),
    o: usize,
    root: u32,
    s: usize,
    width: usize,
)
    requires
        #[trigger] grown(base, g),
        (#[trigger] g.attend(parts, o, root, s, width)).0.ok,
    ensures
        grown(base, g.attend(parts, o, root, s, width).0),
        g.num_edges <= g.attend(parts, o, root, s, width).0.num_edges,
        g.attend(parts, o, root, s, width).1.len() >= 1,
        g.attend(parts, o, root, s, width).1[0] < g.attend(parts, o, root, s, width).0.num_edges,
{
    broadcast use group_kept;
    broadcast use crate::dag::graph::group_ok;
    broadcast use group_compound_kept;
    broadcast use lemma_scalar_kept;
    broadcast use lemma_causal_mask_kept;
    broadcast use crate::dag::llama::group_llama_ok;

    reveal(Graph::attend);
}

pub broadcast proof fn lemma_rotary_attention_kept(
    base: Graph,
    g: Graph,
    x: usize,
    w: AttentionEdges,
    p: Rotary,
)
    requires
        #[trigger] grown(base, g),
        (#[trigger] g.rotary_attention(x, w, p)).0.ok,
    ensures
        grown(base, g.rotary_attention(x, w, p).0),
        g.num_edges <= g.rotary_attention(x, w, p).0.num_edges,
        g.rotary_attention(x, w, p).1.len() >= 1,
        g.rotary_attention(x, w, p).1[0] < g.rotary_attention(x, w, p).0.num_edges,
{
    broadcast use group_kept;
    broadcast use crate::dag::graph::group_ok;
    broadcast use lemma_projections_kept;
    broadcast use lemma_attend_kept;
    broadcast use lemma_rope_with_vecs_kept;
    broadcast use crate::dag::llama::group_llama_ok;
    broadcast use crate::dag::llama::group_layer_ok;

    reveal(Graph::rotary_attention);
}

pub broadcast proof fn lemma_params_kept(base: Graph, g: Graph, values: Seq<Value>)
    requires
        #[trigger] grown(base, g),
        (#[trigger] g.params(values)).ok,
    ensures
        grown(base, g.params(values)),
        g.num_edges <= g.params(values).num_edges,
    decreases values.len(),
{
    broadcast use group_kept;

    reveal(Graph::params);
    if values.len() > 0 {
        lemma_params_kept(base, g, values.drop_last());
    }
}

pub broadcast proof fn lemma_llama_block_kept(
    base: Graph,
    g: Graph,
    x: usize,
    weights: Seq<Value>,
    p: Rotary,
)
    requires
        #[trigger] grown(base, g),
        (#[trigger] g.llama_block(x, weights, p)).0.ok,
    ensures
        grown(base, g.llama_block(x, weights, p).0),
        g.num_edges <= g.llama_block(x, weights, p).0.num_edges,
        g.llama_block(x, weights, p).1.len() >= 1,
        g.llama_block(x, weights, p).1[0] < g.llama_block(x, weights, p).0.num_edges,
{
    broadcast use group_kept;
    broadcast use crate::dag::graph::group_ok;
    broadcast use lemma_params_kept;
    broadcast use lemma_rms_norm_kept;
    broadcast use lemma_rotary_attention_kept;
    broadcast use lemma_gated_mlp_kept;
    broadcast use crate::dag::llama::group_layer_ok;

    reveal(Graph::llama_block);
}

pub proof fn lemma_llama_blocks_kept(
    base: Graph,
    g: Graph,
    x: usize,
    weights: Seq<Seq<Value>>,
    p: Rotary,
    k: nat,
)
    requires
        grown(base, g),
        g.llama_blocks(x, weights, p, k).0.ok,
    ensures
        grown(base, g.llama_blocks(x, weights, p, k).0),
        g.num_edges <= g.llama_blocks(x, weights, p, k).0.num_edges,
    decreases k,
{
    if k > 0 {
        let (h, y) = g.llama_blocks(x, weights, p, (k - 1) as nat);
        crate::dag::llama::lemma_llama_block_ok(h, y, layer_weights(weights, k - 1), p);
        lemma_llama_blocks_kept(base, g, x, weights, p, (k - 1) as nat);
        lemma_llama_block_kept(base, h, y, layer_weights(weights, k - 1), p);
    }
}

/// The graph of LLaMA that is built from one that was built step by step is built step by step, and
/// so it can be compiled.
pub proof fn lemma_llama_kept(
    g: Graph,
    x: usize,
    weights: Seq<Seq<Value>>,
    layer_norm: Value,
    logits: Value,
    num_heads: usize,
    head_dim: usize,
    seq_len: usize,
    vocab_size: usize,
    cosines: Seq<i64>,
    sines: Seq<i64>,
    root: u32,
)
    requires
        sound(g),
        g.llama(
            x,
            weights,
            layer_norm,
            logits,
            num_heads,
            head_dim,
            seq_len,
            vocab_size,
            cosines,
            sines,
            root,
        ).0.ok,
    ensures
        grown(
            g,
            g.llama(
                x,
                weights,
                layer_norm,
                logits,
                num_heads,
                head_dim,
                seq_len,
                vocab_size,
                cosines,
                sines,
                root,
            ).0,
        ),
        compilable(
            g.llama(
                x,
                weights,
                layer_norm,
                logits,
                num_heads,
                head_dim,
                seq_len,
                vocab_size,
                cosines,
                sines,
                root,
            ).0,
        ),
{
    broadcast use group_kept;
    broadcast use crate::dag::graph::group_ok;
    broadcast use lemma_rms_norm_kept;
    broadcast use crate::dag::llama::group_layer_ok;

    lemma_grown_self(g);
    let (d, s) = (head_dim as nat, seq_len as nat);
    let g0 = g.need(
        rotation_fits(d, s, cosines) && rotation_fits(d, s, sines) && all_have(
            weights,
            weights[0].len(),
        ),
    );
    let dims = seq![seq_len, head_dim];
    let (g1, cos) = g0.constant(dims, rotation_table(d, s, cosines, false), g.sf_log);
    let (g2, sin) = g1.constant(dims, rotation_table(d, s, sines, true), g.sf_log);
    let p = Rotary { num_heads, head_dim, seq_len, cos, sin, root };
    let n = weights[0].len();
    crate::dag::llama::lemma_llama_blocks_ok(g2, x, weights, p, 0, n);
    assert(g2.llama_blocks(x, weights, p, 0).0 == g2);
    lemma_llama_blocks_kept(g, g2, x, weights, p, n);
    let whole = g.llama(
        x,
        weights,
        layer_norm,
        logits,
        num_heads,
        head_dim,
        seq_len,
        vocab_size,
        cosines,
        sines,
        root,
    ).0;
    assert(grown(g, whole));
    lemma_sound_compilable(whole);
}

pub broadcast proof fn lemma_layer_norm_kept(base: Graph, g: Graph, x: usize, w: usize)
    requires
        #[trigger] grown(base, g),
        (#[trigger] g.layer_norm(x, w)).0.ok,
    ensures
        grown(base, g.layer_norm(x, w).0),
        g.num_edges <= g.layer_norm(x, w).0.num_edges,
        g.layer_norm(x, w).1.len() >= 1,
        g.layer_norm(x, w).1[0] < g.layer_norm(x, w).0.num_edges,
{
    broadcast use group_kept;
    broadcast use crate::dag::graph::group_ok;
    broadcast use group_compound_kept;
    broadcast use lemma_checked_mean_kept;
    broadcast use lemma_rms_norm_kept;
    broadcast use crate::dag::llama::group_layer_ok;

    reveal(Graph::layer_norm);
}

pub broadcast proof fn lemma_gelu_mlp_kept(
    base: Graph,
    g: Graph,
    x: usize,
    a: usize,
    b: usize,
    slope: u32,
)
    requires
        #[trigger] grown(base, g),
        (#[trigger] g.gelu_mlp(x, a, b, slope)).0.ok,
    ensures
        grown(base, g.gelu_mlp(x, a, b, slope).0),
        g.num_edges <= g.gelu_mlp(x, a, b, slope).0.num_edges,
        g.gelu_mlp(x, a, b, slope).1.len() >= 1,
        g.gelu_mlp(x, a, b, slope).1[0] < g.gelu_mlp(x, a, b, slope).0.num_edges,
{
    broadcast use group_kept;
    broadcast use crate::dag::graph::group_ok;
    broadcast use group_compound_kept;

    reveal(Graph::gelu_mlp);
}

pub broadcast proof fn lemma_plain_attention_kept(
    base: Graph,
    g: Graph,
    x: usize,
    w: AttentionEdges,
    p: Heads,
)
    requires
        #[trigger] grown(base, g),
        (#[trigger] g.plain_attention(x, w, p)).0.ok,
    ensures
        grown(base, g.plain_attention(x, w, p).0),
        g.num_edges <= g.plain_attention(x, w, p).0.num_edges,
        g.plain_attention(x, w, p).1.len() >= 1,
        g.plain_attention(x, w, p).1[0] < g.plain_attention(x, w, p).0.num_edges,
{
    broadcast use group_kept;
    broadcast use crate::dag::graph::group_ok;
    broadcast use lemma_projections_kept;
    broadcast use lemma_attend_kept;
    broadcast use crate::dag::llama::group_layer_ok;

    reveal(Graph::plain_attention);
}

pub broadcast proof fn lemma_nanogpt_block_kept(
    base: Graph,
    g: Graph,
    x: usize,
    weights: Seq<Value>,
    p: Heads,
)
    requires
        #[trigger] grown(base, g),
        (#[trigger] g.nanogpt_block(x, weights, p)).0.ok,
    ensures
        grown(base, g.nanogpt_block(x, weights, p).0),
        g.num_edges <= g.nanogpt_block(x, weights, p).0.num_edges,
        g.nanogpt_block(x, weights, p).1.len() >= 1,
        g.nanogpt_block(x, weights, p).1[0] < g.nanogpt_block(x, weights, p).0.num_edges,
{
    broadcast use group_kept;
    broadcast use crate::dag::graph::group_ok;
    broadcast use lemma_params_kept;
    broadcast use lemma_layer_norm_kept;
    broadcast use lemma_plain_attention_kept;
    broadcast use lemma_gelu_mlp_kept;
    broadcast use crate::dag::llama::group_layer_ok;
    broadcast use crate::dag::nanogpt::group_nano_ok;

    reveal(Graph::nanogpt_block);
}

pub broadcast proof fn lemma_embeddings_kept(
    base: Graph,
    g: Graph,
    onehot: usize,
    wte: usize,
    pos: usize,
)
    requires
        #[trigger] grown(base, g),
        (#[trigger] g.embeddings(onehot, wte, pos)).0.ok,
    ensures
        grown(base, g.embeddings(onehot, wte, pos).0),
        g.num_edges <= g.embeddings(onehot, wte, pos).0.num_edges,
        g.embeddings(onehot, wte, pos).1.len() >= 1,
        g.embeddings(onehot, wte, pos).1[0] < g.embeddings(onehot, wte, pos).0.num_edges,
{
    broadcast use group_kept;
    broadcast use crate::dag::graph::group_ok;

    reveal(Graph::embeddings);
}

pub broadcast proof fn lemma_lm_head_kept(base: Graph, g: Graph, x: usize, w: usize)
    requires
        #[trigger] grown(base, g),
        (#[trigger] g.lm_head(x, w)).0.ok,
    ensures
        grown(base, g.lm_head(x, w).0),
        g.num_edges <= g.lm_head(x, w).0.num_edges,
        g.lm_head(x, w).1.len() >= 1,
        g.lm_head(x, w).1[0] < g.lm_head(x, w).0.num_edges,
{
    broadcast use group_kept;
    broadcast use crate::dag::graph::group_ok;

    reveal(Graph::lm_head);
}

pub proof fn lemma_nanogpt_blocks_kept(
    base: Graph,
    g: Graph,
    x: usize,
    weights: Seq<Seq<Value>>,
    p: Heads,
    k: nat,
)
    requires
        grown(base, g),
        g.nanogpt_blocks(x, weights, p, k).0.ok,
    ensures
        grown(base, g.nanogpt_blocks(x, weights, p, k).0),
        g.num_edges <= g.nanogpt_blocks(x, weights, p, k).0.num_edges,
    decreases k,
{
    if k > 0 {
        let (h, y) = g.nanogpt_blocks(x, weights, p, (k - 1) as nat);
        crate::dag::nanogpt::lemma_nanogpt_block_ok(h, y, layer_weights(weights, k - 1), p);
        lemma_nanogpt_blocks_kept(base, g, x, weights, p, (k - 1) as nat);
        lemma_nanogpt_block_kept(base, h, y, layer_weights(weights, k - 1), p);
    }
}

/// The graph of nanoGPT that is built from one that was built step by step is built step by step,
/// and so it can be compiled.
pub proof fn lemma_nanogpt_kept(
    g: Graph,
    onehot: usize,
    wte: Value,
    pos_emb: Value,
    weights: Seq<Seq<Value>>,
    norm_w: Value,
    mask: Value,
    n_layer: nat,
    p: Heads,
)
    requires
        sound(g),
        g.nanogpt(onehot, wte, pos_emb, weights, norm_w, mask, n_layer, p).0.ok,
    ensures
        grown(g, g.nanogpt(onehot, wte, pos_emb, weights, norm_w, mask, n_layer, p).0),
        compilable(g.nanogpt(onehot, wte, pos_emb, weights, norm_w, mask, n_layer, p).0),
{
    broadcast use group_kept;
    broadcast use crate::dag::nanogpt::group_nano_ok;
    broadcast use lemma_embeddings_kept;
    broadcast use lemma_layer_norm_kept;
    broadcast use lemma_lm_head_kept;

    lemma_grown_self(g);
    let g0 = g.need(all_have(weights, n_layer));
    let (g1, wte_e) = g0.param(wte);
    let (g2, pos) = g1.param(pos_emb);
    let (g3, emb) = g2.embeddings(onehot, wte_e, pos);
    let (g4, _) = g3.param(mask);
    crate::dag::nanogpt::lemma_nanogpt_blocks_ok(g4, emb[0], weights, p, 0, n_layer);
    assert(g4.nanogpt_blocks(emb[0], weights, p, 0).0 == g4);
    lemma_nanogpt_blocks_kept(g, g4, emb[0], weights, p, n_layer);
    let whole = g.nanogpt(onehot, wte, pos_emb, weights, norm_w, mask, n_layer, p).0;
    assert(grown(g, whole));
    lemma_sound_compilable(whole);
}

pub proof fn lemma_embedding_lookup_kept(
    base: Graph,
    g: Graph,
    w_e: usize,
    seq_len: usize,
    vocab: usize,
    ids: Seq<usize>,
)
    requires
        grown(base, g),
        (g.embedding_lookup(w_e, seq_len, vocab, ids)).0.ok,
    ensures
        grown(base, g.embedding_lookup(w_e, seq_len, vocab, ids).0),
        g.num_edges <= g.embedding_lookup(w_e, seq_len, vocab, ids).0.num_edges,
        g.embedding_lookup(w_e, seq_len, vocab, ids).1.0 < g.embedding_lookup(
            w_e,
            seq_len,
            vocab,
            ids,
        ).0.num_edges,
        g.embedding_lookup(w_e, seq_len, vocab, ids).1.1 < g.embedding_lookup(
            w_e,
            seq_len,
            vocab,
            ids,
        ).0.num_edges,
{
    broadcast use group_kept;
    broadcast use crate::dag::graph::group_ok;

}

pub proof fn lemma_add_positional_encoding_kept(base: Graph, g: Graph, h: usize, pos: Value)
    requires
        grown(base, g),
        (g.add_positional_encoding(h, pos)).0.ok,
    ensures
        grown(base, g.add_positional_encoding(h, pos).0),
        g.num_edges <= g.add_positional_encoding(h, pos).0.num_edges,
        g.add_positional_encoding(h, pos).1 < g.add_positional_encoding(h, pos).0.num_edges,
{
    broadcast use group_kept;
    broadcast use crate::dag::graph::group_ok;

}

pub proof fn lemma_lm_head_weight_tied_kept(
    base: Graph,
    g: Graph,
    hidden: usize,
    w_e: usize,
    seq_len: usize,
    vocab: usize,
)
    requires
        grown(base, g),
        (g.lm_head_weight_tied(hidden, w_e, seq_len, vocab)).0.ok,
    ensures
        grown(base, g.lm_head_weight_tied(hidden, w_e, seq_len, vocab).0),
        g.num_edges <= g.lm_head_weight_tied(hidden, w_e, seq_len, vocab).0.num_edges,
        g.lm_head_weight_tied(hidden, w_e, seq_len, vocab).1 < g.lm_head_weight_tied(
            hidden,
            w_e,
            seq_len,
            vocab,
        ).0.num_edges,
{
    broadcast use group_kept;
    broadcast use crate::dag::graph::group_ok;

}

pub proof fn lemma_argmax_check_kept(
    base: Graph,
    g: Graph,
    logits: usize,
    seq_len: usize,
    vocab: usize,
    ids: Seq<usize>,
)
    requires
        grown(base, g),
        (g.argmax_check(logits, seq_len, vocab, ids)).0.ok,
    ensures
        grown(base, g.argmax_check(logits, seq_len, vocab, ids).0),
        g.num_edges <= g.argmax_check(logits, seq_len, vocab, ids).0.num_edges,
        g.argmax_check(logits, seq_len, vocab, ids).1 < g.argmax_check(
            logits,
            seq_len,
            vocab,
            ids,
        ).0.num_edges,
{
    broadcast use group_kept;
    broadcast use crate::dag::graph::group_ok;

}

} // verus!
