//! The nodes of a graph that need a check are marked for it.
use crate::arith::num_vars;
use crate::dag::graph::{Graph, NodeView, Op};
use crate::dag::llama::{all_have, layer_weights, AttentionEdges, Rotary};
use crate::dag::nanogpt::Heads;
use crate::dag::rotary::{rotation_fits, rotation_table};
use crate::witness::{empty_value, Role, Value};
use vstd::prelude::*;

verus! {

/// An operation whose results have to be looked up in the table of a range.
pub open spec fn needs_range(op: Op) -> bool {
    op is NonNegative || op is ScaleDown || op is ScaleUp || op is ExpHelper
}

/// The numbers of the nodes whose results have to be looked up in the table of a range.
pub open spec fn range_nodes(nodes: Seq<NodeView>) -> Seq<usize>
    decreases nodes.len(),
{
    if nodes.len() == 0 {
        seq![]
    } else if needs_range(nodes.last().op) {
        range_nodes(nodes.drop_last()).push((nodes.len() - 1) as usize)
    } else {
        range_nodes(nodes.drop_last())
    }
}

/// The numbers of the nodes that look up powers of two.
pub open spec fn power_nodes(nodes: Seq<NodeView>) -> Seq<usize>
    decreases nodes.len(),
{
    if nodes.len() == 0 {
        seq![]
    } else if nodes.last().op is TwoPow {
        power_nodes(nodes.drop_last()).push((nodes.len() - 1) as usize)
    } else {
        power_nodes(nodes.drop_last())
    }
}

/// The numbers of the nodes that assert that their input is zero.
pub open spec fn zero_nodes(nodes: Seq<NodeView>) -> Seq<usize>
    decreases nodes.len(),
{
    if nodes.len() == 0 {
        seq![]
    } else if nodes.last().op is ZeroCheck {
        zero_nodes(nodes.drop_last()).push((nodes.len() - 1) as usize)
    } else {
        zero_nodes(nodes.drop_last())
    }
}

/// The marks are those of all nodes that need them, and of no others.
#[verifier::opaque]
pub open spec fn marked(g: Graph) -> bool {
    &&& g.range == range_nodes(g.nodes)
    &&& g.two_pow == power_nodes(g.nodes)
    &&& g.zero_check == zero_nodes(g.nodes)
}

/// The nodes that need a mark, and only they, are among those that have it.
proof fn lemma_marked_nodes(nodes: Seq<NodeView>, i: int)
    requires
        0 <= i < nodes.len() <= usize::MAX,
    ensures
        range_nodes(nodes).contains(i as usize) <==> needs_range(nodes[i].op),
        power_nodes(nodes).contains(i as usize) <==> nodes[i].op is TwoPow,
        zero_nodes(nodes).contains(i as usize) <==> nodes[i].op is ZeroCheck,
        forall|k: int|
            0 <= k < range_nodes(nodes).len() ==> #[trigger] range_nodes(nodes)[k] < nodes.len(),
        forall|k: int|
            0 <= k < power_nodes(nodes).len() ==> #[trigger] power_nodes(nodes)[k] < nodes.len(),
        forall|k: int|
            0 <= k < zero_nodes(nodes).len() ==> #[trigger] zero_nodes(nodes)[k] < nodes.len(),
    decreases nodes.len(),
{
    let rest = nodes.drop_last();
    let n = nodes.len() - 1;
    if n > 0 {
        lemma_marked_nodes(rest, if i < n {
            i
        } else {
            0
        });
    } else {
        assert(range_nodes(rest) =~= seq![]);
        assert(power_nodes(rest) =~= seq![]);
        assert(zero_nodes(rest) =~= seq![]);
    }
    lemma_pushed(range_nodes(rest), n as usize, i as usize);
    lemma_pushed(power_nodes(rest), n as usize, i as usize);
    lemma_pushed(zero_nodes(rest), n as usize, i as usize);
    if i < n {
        assert(rest[i] == nodes[i]);
    }
}

proof fn lemma_pushed(marks: Seq<usize>, n: usize, i: usize)
    ensures
        marks.push(n).contains(i) <==> marks.contains(i) || i == n,
{
    let after = marks.push(n);
    if marks.contains(i) {
        let k = choose|k: int| 0 <= k < marks.len() && marks[k] == i;
        assert(after[k] == i);
    }
    if i == n {
        assert(after[marks.len() as int] == i);
    }
    if after.contains(i) {
        let k = choose|k: int| 0 <= k < after.len() && after[k] == i;
        if k < marks.len() {
            assert(marks[k] == i);
        }
    }
}

/// In a marked graph exactly the nodes whose results have to be looked up in the table of a range,
/// exactly those that look up powers of two and exactly those that assert that their input is zero
/// are marked as such.
pub proof fn lemma_marks(g: Graph, i: int)
    requires
        marked(g),
        0 <= i < g.nodes.len() <= usize::MAX,
    ensures
        g.range.contains(i as usize) <==> needs_range(g.nodes[i].op),
        g.two_pow.contains(i as usize) <==> g.nodes[i].op is TwoPow,
        g.zero_check.contains(i as usize) <==> g.nodes[i].op is ZeroCheck,
{
    reveal(marked);
    lemma_marked_nodes(g.nodes, i);
}

/// An empty graph is marked.
pub proof fn lemma_empty_marked(sf_log: usize, table_size_log: usize)
    ensures
        marked(crate::dag::graph::empty_graph(sf_log, table_size_log)),
{
    reveal(marked);
    let g = crate::dag::graph::empty_graph(sf_log, table_size_log);
    assert(g.range =~= range_nodes(g.nodes));
    assert(g.two_pow =~= power_nodes(g.nodes));
    assert(g.zero_check =~= zero_nodes(g.nodes));
}

/// One more node.
proof fn lemma_step_marked(g: Graph, h: Graph)
    requires
        marked(g),
        h.nodes.len() == g.nodes.len() + 1,
        h.nodes.drop_last() == g.nodes,
        h.range == if needs_range(h.nodes.last().op) {
            g.range.push(g.nodes.len() as usize)
        } else {
            g.range
        },
        h.two_pow == if h.nodes.last().op is TwoPow {
            g.two_pow.push(g.nodes.len() as usize)
        } else {
            g.two_pow
        },
        h.zero_check == if h.nodes.last().op is ZeroCheck {
            g.zero_check.push(g.nodes.len() as usize)
        } else {
            g.zero_check
        },
    ensures
        marked(h),
{
    reveal(marked);
}

/// No node more.
proof fn lemma_same_marked(g: Graph, h: Graph)
    requires
        marked(g),
        h.nodes == g.nodes,
        h.range == g.range,
        h.two_pow == g.two_pow,
        h.zero_check == g.zero_check,
    ensures
        marked(h),
{
    reveal(marked);
}

pub broadcast proof fn lemma_need_marked(g: Graph, condition: bool)
    requires
        #[trigger] marked(g),
    ensures
        marked(#[trigger] g.need(condition)),
{
    lemma_same_marked(g, g.need(condition));
}

pub broadcast proof fn lemma_param_marked(g: Graph, t: Value)
    requires
        #[trigger] marked(g),
    ensures
        marked((#[trigger] g.param(t)).0),
{
    lemma_same_marked(g, g.param(t).0);
}

pub broadcast proof fn lemma_constant_marked(
    g: Graph,
    shape: Seq<usize>,
    table: Seq<int>,
    sf: usize,
)
    requires
        #[trigger] marked(g),
    ensures
        marked((#[trigger] g.constant(shape, table, sf)).0),
{
    lemma_same_marked(g, g.constant(shape, table, sf).0);
}

pub broadcast proof fn lemma_constant_flat_marked(
    g: Graph,
    shape: Seq<usize>,
    flat: Seq<usize>,
    v: int,
)
    requires
        #[trigger] marked(g),
    ensures
        marked((#[trigger] g.constant_flat(shape, flat, v)).0),
{
    reveal(Graph::constant_flat);
    lemma_same_marked(g, g.constant_flat(shape, flat, v).0);
}

pub broadcast proof fn lemma_scalar_marked(g: Graph, v: u64, sf: usize)
    requires
        #[trigger] marked(g),
    ensures
        marked((#[trigger] g.scalar(v, sf)).0),
{
    reveal(Graph::scalar);
    lemma_same_marked(g, g.scalar(v, sf).0);
}

pub broadcast proof fn lemma_unit_marked(g: Graph, sf: usize)
    requires
        #[trigger] marked(g),
    ensures
        marked((#[trigger] g.unit(sf)).0),
{
    reveal(Graph::unit);
    reveal(Graph::scalar);
    lemma_same_marked(g, g.unit(sf).0);
}

pub broadcast proof fn lemma_nonneg_marked(g: Graph, a: usize)
    requires
        #[trigger] marked(g),
    ensures
        marked(#[trigger] g.nonneg(a)),
{
    reveal(Graph::nonneg);
    let h = g.nonneg(a);
    assert(h.nodes.drop_last() =~= g.nodes);
    lemma_step_marked(g, h);
}

pub broadcast proof fn lemma_assert_zero_marked(g: Graph, a: usize)
    requires
        #[trigger] marked(g),
    ensures
        marked(#[trigger] g.assert_zero(a)),
{
    reveal(Graph::assert_zero);
    let h = g.assert_zero(a);
    assert(h.nodes.drop_last() =~= g.nodes);
    lemma_step_marked(g, h);
}

pub broadcast proof fn lemma_change_shape_marked(g: Graph, a: usize, shape: Seq<usize>)
    requires
        #[trigger] marked(g),
    ensures
        marked((#[trigger] g.change_shape(a, shape)).0),
{
    reveal(Graph::change_shape);
    let h = g.change_shape(a, shape).0;
    assert(h.nodes.drop_last() =~= g.nodes);
    lemma_step_marked(g, h);
}

pub broadcast proof fn lemma_scale_marked(g: Graph, a: usize, input_sf: usize, output_sf: usize)
    requires
        #[trigger] marked(g),
    ensures
        marked((#[trigger] g.scale(a, input_sf, output_sf)).0),
{
    reveal(Graph::scale);
    let h = g.scale(a, input_sf, output_sf).0;
    assert(h.nodes.drop_last() =~= g.nodes);
    lemma_step_marked(g, h);
}

pub broadcast proof fn lemma_plus_marked(g: Graph, a: usize, b: usize)
    requires
        #[trigger] marked(g),
    ensures
        marked((#[trigger] g.plus(a, b)).0),
{
    reveal(Graph::plus);
    let h = g.plus(a, b).0;
    assert(h.nodes.drop_last() =~= g.nodes);
    lemma_step_marked(g, h);
}

pub broadcast proof fn lemma_minus_marked(g: Graph, a: usize, b: usize)
    requires
        #[trigger] marked(g),
    ensures
        marked((#[trigger] g.minus(a, b)).0),
{
    reveal(Graph::minus);
    let h = g.minus(a, b).0;
    assert(h.nodes.drop_last() =~= g.nodes);
    lemma_step_marked(g, h);
}

pub broadcast proof fn lemma_sigmoid_const_marked(g: Graph, a: usize)
    requires
        #[trigger] marked(g),
    ensures
        marked((#[trigger] g.sigmoid_const(a)).0),
{
    reveal(Graph::sigmoid_const);
    let h = g.sigmoid_const(a).0;
    assert(h.nodes.drop_last() =~= g.nodes);
    lemma_step_marked(g, h);
}

pub broadcast proof fn lemma_nonstructured_exp_marked(g: Graph, a: usize, t: usize)
    requires
        #[trigger] marked(g),
    ensures
        marked((#[trigger] g.nonstructured_exp(a, t)).0),
{
    reveal(Graph::nonstructured_exp);
    let h = g.nonstructured_exp(a, t).0;
    assert(h.nodes.drop_last() =~= g.nodes);
    lemma_step_marked(g, h);
}

pub broadcast proof fn lemma_rms_reciprocal_marked(g: Graph, x: usize)
    requires
        #[trigger] marked(g),
    ensures
        marked((#[trigger] g.rms_reciprocal(x)).0),
{
    reveal(Graph::rms_reciprocal);
    let h = g.rms_reciprocal(x).0;
    assert(h.nodes.drop_last() =~= g.nodes);
    lemma_step_marked(g, h);
}

pub broadcast proof fn lemma_div_const_marked(g: Graph, a: usize, c: usize)
    requires
        #[trigger] marked(g),
    ensures
        marked((#[trigger] g.div_const(a, c)).0),
{
    reveal(Graph::div_const);
    let h = g.div_const(a, c).0;
    assert(h.nodes.drop_last() =~= g.nodes);
    lemma_step_marked(g, h);
}

pub broadcast proof fn lemma_softmax_const_marked(g: Graph, a: usize)
    requires
        #[trigger] marked(g),
    ensures
        marked((#[trigger] g.softmax_const(a)).0),
{
    reveal(Graph::softmax_const);
    let h = g.softmax_const(a).0;
    assert(h.nodes.drop_last() =~= g.nodes);
    lemma_step_marked(g, h);
}

pub broadcast group group_marked_steps {
    lemma_need_marked,
    lemma_param_marked,
    lemma_constant_marked,
    lemma_constant_flat_marked,
    lemma_scalar_marked,
    lemma_unit_marked,
    lemma_nonneg_marked,
    lemma_assert_zero_marked,
    lemma_change_shape_marked,
    lemma_scale_marked,
    lemma_plus_marked,
    lemma_minus_marked,
    lemma_sigmoid_const_marked,
    lemma_nonstructured_exp_marked,
    lemma_rms_reciprocal_marked,
    lemma_div_const_marked,
    lemma_softmax_const_marked,
}

pub broadcast proof fn lemma_einsum_marked(
    g: Graph,
    equation: Seq<char>,
    inputs: Seq<usize>,
    scale_back: bool,
)
    requires
        #[trigger] marked(g),
    ensures
        marked((#[trigger] g.einsum(equation, inputs, scale_back)).0),
{
    broadcast use group_marked_steps;

    reveal(Graph::einsum);
    let (h, outs) = g.einsum(equation, inputs, false);
    assert(h.nodes.drop_last() =~= g.nodes);
    lemma_step_marked(g, h);
    if scale_back {
        lemma_scale_marked(h, outs[0], g.total_sf(inputs) as usize, g.value(inputs[0]).sf);
    }
}

pub broadcast proof fn lemma_mask_marked(g: Graph, a: usize, shape: Seq<usize>)
    requires
        #[trigger] marked(g),
    ensures
        marked((#[trigger] g.mask(a, shape)).0),
{
    broadcast use group_marked_steps, lemma_einsum_marked;

    reveal(Graph::mask);
}

pub broadcast proof fn lemma_within_marked(g: Graph, difference: usize, tolerance: usize)
    requires
        #[trigger] marked(g),
    ensures
        marked(#[trigger] g.within(difference, tolerance)),
{
    broadcast use group_marked_steps, lemma_einsum_marked;

    reveal(Graph::within);
}

pub broadcast proof fn lemma_reshape_marked(g: Graph, a: usize, shape: Seq<usize>)
    requires
        #[trigger] marked(g),
    ensures
        marked((#[trigger] g.reshape(a, shape)).0),
{
    broadcast use group_marked_steps, lemma_einsum_marked;

    reveal(Graph::reshape);
}

pub broadcast group group_marked_simple {
    lemma_einsum_marked,
    lemma_mask_marked,
    lemma_within_marked,
    lemma_reshape_marked,
}

pub broadcast proof fn lemma_clamp_lower_marked(g: Graph, x: usize)
    requires
        #[trigger] marked(g),
    ensures
        marked((#[trigger] g.clamp_lower(x)).0),
{
    broadcast use group_marked_steps, group_marked_simple;

    reveal(Graph::clamp_lower);
    let v = g.value(x);
    let c = Graph::clamp_bound(v.sf);
    let h = g.need(g.known(x) && v.sf < 60 && num_vars(v.shape) < usize::BITS);
    let (g1, m) = h.mask(x, v.shape);
    let g2 = g1.with_node(seq![m], Op::ClampLower(c as u64)).0.with_value(
        empty_value(v.shape, v.data_type, v.sf, Role::Output),
    );
    assert(g2.nodes.drop_last() =~= g1.nodes);
    lemma_step_marked(g1, g2);
}

pub broadcast proof fn lemma_checked_mean_marked(g: Graph, sum: usize, n: usize, shape: Seq<usize>)
    requires
        #[trigger] marked(g),
    ensures
        marked((#[trigger] g.checked_mean(sum, n, shape)).0),
{
    broadcast use group_marked_steps, group_marked_simple;

    reveal(Graph::checked_mean);
}

pub broadcast proof fn lemma_reciprocal_marked(g: Graph, a: usize)
    requires
        #[trigger] marked(g),
    ensures
        marked((#[trigger] g.reciprocal(a)).0),
{
    broadcast use group_marked_steps, group_marked_simple;

    reveal(Graph::reciprocal);
    let v = g.value(a);
    let h = g.need(g.known(a) && v.shape.len() <= 26);
    let g1 = h.with_value(empty_value(v.shape, v.data_type, v.sf, Role::Auxiliary)).with_node(
        seq![a],
        Op::Reciprocal,
    ).0;
    assert(g1.nodes.drop_last() =~= h.nodes);
    lemma_step_marked(h, g1);
}

pub broadcast proof fn lemma_swap_pairs_marked(g: Graph, a: usize)
    requires
        #[trigger] marked(g),
    ensures
        marked((#[trigger] g.swap_pairs(a)).0),
{
    broadcast use group_marked_steps, group_marked_simple;

    reveal(Graph::swap_pairs);
}

pub broadcast proof fn lemma_rotate_marked(
    g: Graph,
    a: usize,
    swapped: usize,
    cos: usize,
    sin: usize,
)
    requires
        #[trigger] marked(g),
    ensures
        marked((#[trigger] g.rotate(a, swapped, cos, sin)).0),
{
    broadcast use group_marked_steps, group_marked_simple;

    reveal(Graph::rotate);
}

pub broadcast proof fn lemma_causal_mask_marked(g: Graph, scores: usize, seq_len: usize)
    requires
        #[trigger] marked(g),
    ensures
        marked((#[trigger] g.causal_mask(scores, seq_len)).0),
{
    broadcast use group_marked_steps, group_marked_simple;

    reveal(Graph::causal_mask);
}

pub broadcast proof fn lemma_heads_marked(g: Graph, x: usize, heads: Seq<usize>)
    requires
        #[trigger] marked(g),
    ensures
        marked((#[trigger] g.heads(x, heads)).0),
{
    broadcast use group_marked_steps, group_marked_simple;

    reveal(Graph::heads);
}

pub broadcast group group_marked_parts {
    lemma_clamp_lower_marked,
    lemma_checked_mean_marked,
    lemma_reciprocal_marked,
    lemma_swap_pairs_marked,
    lemma_rotate_marked,
    lemma_causal_mask_marked,
    lemma_heads_marked,
}

pub broadcast proof fn lemma_exp_marked(g: Graph, a: usize)
    requires
        #[trigger] marked(g),
    ensures
        marked((#[trigger] g.exp(a)).0),
{
    broadcast use group_marked_steps, group_marked_simple, group_marked_parts;

    reveal(Graph::exp);
    let (g1, x) = g.clamp_lower(a);
    let v = g1.value(x);
    let g2 = g1.need(g1.known(x) && num_vars(v.shape) < usize::BITS);
    let g3 = g2.with_value(empty_value(v.shape, v.data_type, g.sf_log, Role::Output));
    let g4 = g3.with_value(empty_value(seq![1usize], v.data_type, 0, Role::Auxiliary));
    let (g5, outs) = g4.with_range().with_node(seq![x], Op::ExpHelper(g.sf_log));
    assert(g5.nodes.drop_last() =~= g2.nodes);
    lemma_step_marked(g2, g5);
    let (g6, r) = g5.scale(outs[0], g.sf_log, 15);
    let g7 = g6.with_two_pow().with_node(seq![outs[1]], Op::TwoPow).0.with_value(
        empty_value(v.shape, v.data_type, 15, Role::Output),
    );
    assert(g7.nodes.drop_last() =~= g6.nodes);
    lemma_step_marked(g6, g7);
}

pub broadcast proof fn lemma_rms_norm_marked(g: Graph, x: usize, w: usize)
    requires
        #[trigger] marked(g),
    ensures
        marked((#[trigger] g.rms_norm(x, w)).0),
{
    broadcast use group_marked_steps, group_marked_simple, group_marked_parts;

    reveal(Graph::rms_norm);
}

pub broadcast proof fn lemma_rope_marked(g: Graph, a: usize, cosines: Seq<i64>, sines: Seq<i64>)
    requires
        #[trigger] marked(g),
    ensures
        marked((#[trigger] g.rope(a, cosines, sines)).0),
{
    broadcast use group_marked_steps, group_marked_simple, group_marked_parts;

    reveal(Graph::rope);
}

pub broadcast proof fn lemma_rope_with_vecs_marked(g: Graph, a: usize, cos: usize, sin: usize)
    requires
        #[trigger] marked(g),
    ensures
        marked((#[trigger] g.rope_with_vecs(a, cos, sin)).0),
{
    broadcast use group_marked_steps, group_marked_simple, group_marked_parts;

    reveal(Graph::rope_with_vecs);
}

pub broadcast proof fn lemma_projections_marked(
    g: Graph,
    x: usize,
    w: AttentionEdges,
    heads: Seq<usize>,
)
    requires
        #[trigger] marked(g),
    ensures
        marked((#[trigger] g.projections(x, w, heads)).0),
{
    broadcast use group_marked_steps, group_marked_simple, group_marked_parts;

    reveal(Graph::projections);
}

pub broadcast group group_marked_layers {
    lemma_exp_marked,
    lemma_rms_norm_marked,
    lemma_rope_marked,
    lemma_rope_with_vecs_marked,
    lemma_projections_marked,
}

pub broadcast proof fn lemma_sigmoid_marked(g: Graph, a: usize)
    requires
        #[trigger] marked(g),
    ensures
        marked((#[trigger] g.sigmoid(a)).0),
{
    broadcast use group_marked_steps, group_marked_simple, group_marked_parts, group_marked_layers;

    reveal(Graph::sigmoid);
}

pub broadcast proof fn lemma_layer_norm_marked(g: Graph, x: usize, w: usize)
    requires
        #[trigger] marked(g),
    ensures
        marked((#[trigger] g.layer_norm(x, w)).0),
{
    broadcast use group_marked_steps, group_marked_simple, group_marked_parts, group_marked_layers;

    reveal(Graph::layer_norm);
}

pub broadcast proof fn lemma_attend_marked(
    g: Graph,
    parts: (usize, usize, usize),
    w_o: usize,
    root: u32,
    seq_len: usize,
    width: usize,
)
    requires
        #[trigger] marked(g),
    ensures
        marked((#[trigger] g.attend(parts, w_o, root, seq_len, width)).0),
{
    broadcast use group_marked_steps, group_marked_simple, group_marked_parts, group_marked_layers;

    reveal(Graph::attend);
}

pub broadcast group group_marked_sublayers {
    lemma_sigmoid_marked,
    lemma_layer_norm_marked,
    lemma_attend_marked,
}

pub broadcast proof fn lemma_gated_mlp_marked(
    g: Graph,
    x: usize,
    w_1: usize,
    w_2: usize,
    w_3: usize,
)
    requires
        #[trigger] marked(g),
    ensures
        marked((#[trigger] g.gated_mlp(x, w_1, w_2, w_3)).0),
{
    broadcast use
        group_marked_steps, group_marked_simple, group_marked_parts, group_marked_layers,
        group_marked_sublayers,
    ;

    reveal(Graph::gated_mlp);
}

pub broadcast proof fn lemma_gelu_mlp_marked(g: Graph, x: usize, w_1: usize, w_2: usize, slope: u32)
    requires
        #[trigger] marked(g),
    ensures
        marked((#[trigger] g.gelu_mlp(x, w_1, w_2, slope)).0),
{
    broadcast use
        group_marked_steps, group_marked_simple, group_marked_parts, group_marked_layers,
        group_marked_sublayers,
    ;

    reveal(Graph::gelu_mlp);
}

pub broadcast proof fn lemma_plain_attention_marked(g: Graph, x: usize, w: AttentionEdges, p: Heads)
    requires
        #[trigger] marked(g),
    ensures
        marked((#[trigger] g.plain_attention(x, w, p)).0),
{
    broadcast use
        group_marked_steps, group_marked_simple, group_marked_parts, group_marked_layers,
        group_marked_sublayers,
    ;

    reveal(Graph::plain_attention);
}

pub broadcast proof fn lemma_rotary_attention_marked(
    g: Graph,
    x: usize,
    w: AttentionEdges,
    p: Rotary,
)
    requires
        #[trigger] marked(g),
    ensures
        marked((#[trigger] g.rotary_attention(x, w, p)).0),
{
    broadcast use
        group_marked_steps, group_marked_simple, group_marked_parts, group_marked_layers,
        group_marked_sublayers,
    ;

    reveal(Graph::rotary_attention);
}

pub broadcast proof fn lemma_embeddings_marked(g: Graph, onehot: usize, wte: usize, pos: usize)
    requires
        #[trigger] marked(g),
    ensures
        marked((#[trigger] g.embeddings(onehot, wte, pos)).0),
{
    broadcast use
        group_marked_steps, group_marked_simple, group_marked_parts, group_marked_layers,
        group_marked_sublayers,
    ;

    reveal(Graph::embeddings);
}

pub broadcast proof fn lemma_lm_head_marked(g: Graph, x: usize, w: usize)
    requires
        #[trigger] marked(g),
    ensures
        marked((#[trigger] g.lm_head(x, w)).0),
{
    broadcast use
        group_marked_steps, group_marked_simple, group_marked_parts, group_marked_layers,
        group_marked_sublayers,
    ;

    reveal(Graph::lm_head);
}

pub broadcast group group_marked_blocks {
    lemma_gated_mlp_marked,
    lemma_gelu_mlp_marked,
    lemma_plain_attention_marked,
    lemma_rotary_attention_marked,
    lemma_embeddings_marked,
    lemma_lm_head_marked,
}

pub broadcast proof fn lemma_params_marked(g: Graph, values: Seq<Value>)
    requires
        #[trigger] marked(g),
    ensures
        marked(#[trigger] g.params(values)),
    decreases values.len(),
{
    broadcast use group_marked_steps;

    reveal(Graph::params);
    if values.len() > 0 {
        lemma_params_marked(g, values.drop_last());
    }
}

pub broadcast proof fn lemma_llama_block_marked(g: Graph, x: usize, weights: Seq<Value>, p: Rotary)
    requires
        #[trigger] marked(g),
    ensures
        marked((#[trigger] g.llama_block(x, weights, p)).0),
{
    broadcast use
        group_marked_steps, group_marked_layers, group_marked_sublayers, group_marked_blocks,
        lemma_params_marked,
    ;

    reveal(Graph::llama_block);
}

pub broadcast proof fn lemma_nanogpt_block_marked(g: Graph, x: usize, weights: Seq<Value>, p: Heads)
    requires
        #[trigger] marked(g),
    ensures
        marked((#[trigger] g.nanogpt_block(x, weights, p)).0),
{
    broadcast use
        group_marked_steps, group_marked_layers, group_marked_sublayers, group_marked_blocks,
        lemma_params_marked,
    ;

    reveal(Graph::nanogpt_block);
}

pub proof fn lemma_llama_blocks_marked(
    g: Graph,
    x: usize,
    weights: Seq<Seq<Value>>,
    p: Rotary,
    k: nat,
)
    requires
        marked(g),
    ensures
        marked(g.llama_blocks(x, weights, p, k).0),
    decreases k,
{
    if k > 0 {
        let j = (k - 1) as nat;
        lemma_llama_blocks_marked(g, x, weights, p, j);
        let (h, y) = g.llama_blocks(x, weights, p, j);
        lemma_llama_block_marked(h, y, layer_weights(weights, k - 1), p);
    }
}

pub proof fn lemma_nanogpt_blocks_marked(
    g: Graph,
    x: usize,
    weights: Seq<Seq<Value>>,
    p: Heads,
    k: nat,
)
    requires
        marked(g),
    ensures
        marked(g.nanogpt_blocks(x, weights, p, k).0),
    decreases k,
{
    if k > 0 {
        let j = (k - 1) as nat;
        lemma_nanogpt_blocks_marked(g, x, weights, p, j);
        let (h, y) = g.nanogpt_blocks(x, weights, p, j);
        lemma_nanogpt_block_marked(h, y, layer_weights(weights, k - 1), p);
    }
}

pub proof fn lemma_embedding_lookup_marked(
    g: Graph,
    w_e: usize,
    seq_len: usize,
    vocab_size: usize,
    token_ids: Seq<usize>,
)
    requires
        marked(g),
    ensures
        marked(g.embedding_lookup(w_e, seq_len, vocab_size, token_ids).0),
{
    broadcast use group_marked_steps, group_marked_simple;

}

pub proof fn lemma_add_positional_encoding_marked(g: Graph, h: usize, pos: Value)
    requires
        marked(g),
    ensures
        marked(g.add_positional_encoding(h, pos).0),
{
    broadcast use group_marked_steps, group_marked_simple;

}

pub proof fn lemma_lm_head_weight_tied_marked(
    g: Graph,
    hidden: usize,
    w_e: usize,
    seq_len: usize,
    vocab_size: usize,
)
    requires
        marked(g),
    ensures
        marked(g.lm_head_weight_tied(hidden, w_e, seq_len, vocab_size).0),
{
    broadcast use group_marked_steps, group_marked_simple;

}

pub proof fn lemma_argmax_check_marked(
    g: Graph,
    logits: usize,
    seq_len: usize,
    vocab_size: usize,
    token_ids: Seq<usize>,
)
    requires
        marked(g),
    ensures
        marked(g.argmax_check(logits, seq_len, vocab_size, token_ids).0),
{
    broadcast use group_marked_steps, group_marked_simple;

}

pub proof fn lemma_llama_marked(
    g: Graph,
    x: usize,
    weights: Seq<Seq<Value>>,
    layer_norm: Value,
    logits: Value,
    num_heads: usize,
    head_dim: usize,
    seq_len: usize,
    vocab_size: usize,
    cosines: Seq<i64>,
    sines: Seq<i64>,
    root: u32,
)
    requires
        marked(g),
    ensures
        marked(
            g.llama(
                x,
                weights,
                layer_norm,
                logits,
                num_heads,
                head_dim,
                seq_len,
                vocab_size,
                cosines,
                sines,
                root,
            ).0,
        ),
{
    broadcast use group_marked_steps, group_marked_simple, group_marked_layers;

    let (d, s) = (head_dim as nat, seq_len as nat);
    let h = g.need(
        rotation_fits(d, s, cosines) && rotation_fits(d, s, sines) && all_have(
            weights,
            weights[0].len(),
        ),
    );
    let dims = seq![seq_len, head_dim];
    let (g1, cos) = h.constant(dims, rotation_table(d, s, cosines, false), g.sf_log);
    let (g2, sin) = g1.constant(dims, rotation_table(d, s, sines, true), g.sf_log);
    let p = Rotary { num_heads, head_dim, seq_len, cos, sin, root };
    lemma_llama_blocks_marked(g2, x, weights, p, weights[0].len());
}

pub proof fn lemma_nanogpt_marked(
    g: Graph,
    onehot: usize,
    wte: Value,
    pos_emb: Value,
    weights: Seq<Seq<Value>>,
    norm_w: Value,
    mask: Value,
    n_layer: nat,
    p: Heads,
)
    requires
        marked(g),
    ensures
        marked(g.nanogpt(onehot, wte, pos_emb, weights, norm_w, mask, n_layer, p).0),
{
    broadcast use group_marked_steps, group_marked_sublayers, group_marked_blocks;

    let h = g.need(all_have(weights, n_layer));
    let (g1, wte) = h.param(wte);
    let (g2, pos) = g1.param(pos_emb);
    let (g3, emb) = g2.embeddings(onehot, wte, pos);
    let (g4, _) = g3.param(mask);
    lemma_nanogpt_blocks_marked(g4, emb[0], weights, p, n_layer);
}

pub proof fn lemma_oneshot_llama_marked(
    g: Graph,
    w_e: Value,
    weights: Seq<Seq<Value>>,
    layer_norm: Value,
    logits_w: Value,
    num_heads: usize,
    head_dim: usize,
    seq_len: usize,
    vocab_size: usize,
    token_ids: Seq<usize>,
    cosines: Seq<i64>,
    sines: Seq<i64>,
    root: u32,
)
    requires
        marked(g),
    ensures
        marked(
            g.oneshot_llama(
                w_e,
                weights,
                layer_norm,
                logits_w,
                num_heads,
                head_dim,
                seq_len,
                vocab_size,
                token_ids,
                cosines,
                sines,
                root,
            ).0,
        ),
{
    broadcast use group_marked_steps;

    let h = g.need(num_heads * head_dim <= usize::MAX);
    let (g1, e) = h.param(w_e);
    lemma_embedding_lookup_marked(g1, e, seq_len, vocab_size, token_ids);
    let (g2, found) = g1.embedding_lookup(e, seq_len, vocab_size, token_ids);
    let (g3, x) = g2.change_shape(
        found.0,
        seq![1, seq_len, (num_heads * head_dim) as usize],
    );
    lemma_llama_marked(
        g3,
        x,
        weights,
        layer_norm,
        logits_w,
        num_heads,
        head_dim,
        seq_len,
        vocab_size,
        cosines,
        sines,
        root,
    );
    let (g4, logits) = g3.llama(
        x,
        weights,
        layer_norm,
        logits_w,
        num_heads,
        head_dim,
        seq_len,
        vocab_size,
        cosines,
        sines,
        root,
    );
    lemma_argmax_check_marked(
        g4,
        logits[0],
        seq_len,
        vocab_size,
        crate::model::llama::no_tokens(seq_len),
    );
}

} // verus!
