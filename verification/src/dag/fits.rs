//! Layers on tensors of fitting shapes can be built.
//!
//! Each layer is followed from the shapes and scales of its inputs to those of its outputs, and its
//! steps are counted.
use crate::arith::num_vars;
use crate::basicblock::llama::last_dropped;
use crate::dag::equation::{equation_ok, equation_shape, letters_of};
use crate::dag::graph::{op_arity, Graph, Op};
use crate::dag::llama::{AttentionEdges, Rotary, all_have, layer_weights};
use crate::dag::nanogpt::Heads;
use crate::dag::oneshot::{one_hot_value, selectable};
use crate::dag::readings::{
    lemma_a_a_a, lemma_bhsd_bhtd_bhst, lemma_bhsd_bshd, lemma_bhst_bhtd_bhsd, lemma_bhst_z_bhst,
    lemma_bij_jk_ik, lemma_bsdh_bshd, lemma_bshd_bhsd, lemma_bshd_bsdh, lemma_bshd_de_bshe,
    lemma_bshd_sd_bshd, lemma_bsi_bs, lemma_bsi_bs_bsi, lemma_bsi_bsi_bsi, lemma_bsi_i_bsi,
    lemma_bsi_ij_bsj, lemma_bte_ve_btv, lemma_btv_ve_bte, lemma_entrywise, lemma_sv_sv_s,
    lemma_sv_vd_sd,
};
use crate::dag::rotary::{causal_table, pair_swap, rotation_fits, rotation_table};
use crate::shape::{broadcasted, compatible, constant_table};
use crate::witness::{dense_value, empty_value, DataType, Role, Value};
use vstd::arithmetic::power2::pow2;
use vstd::prelude::*;

verus! {

/// The graph is `ok`, something is known of every edge up to the last, and it has room for `k` more
/// edges and nodes.
#[verifier::opaque]
pub open spec fn ready(g: Graph, k: int) -> bool {
    &&& g.ok
    &&& g.values.len() == g.num_edges
    &&& g.num_edges + k <= usize::MAX
    &&& g.nodes.len() + k <= usize::MAX
}

/// The second graph is the first with at most `k` more edges and nodes.
#[verifier::opaque]
pub open spec fn extends(g: Graph, h: Graph, k: int) -> bool {
    &&& h.ok
    &&& h.values.len() == h.num_edges
    &&& g.values.is_prefix_of(h.values)
    &&& h.num_edges <= g.num_edges + k
    &&& h.nodes.len() <= g.nodes.len() + k
    &&& h.sf_log == g.sf_log
    &&& h.table_size_log == g.table_size_log
}

/// The tensor on an edge has the given shape and fractional bits.
pub open spec fn holds(g: Graph, e: usize, shape: Seq<usize>, sf: usize) -> bool {
    &&& g.known(e)
    &&& g.value(e).shape == shape
    &&& g.value(e).sf == sf
}

/// A tensor of the given shape and fractional bits is computed on an edge.
pub open spec fn computed(g: Graph, e: usize, shape: Seq<usize>, sf: usize) -> bool {
    holds(g, e, shape, sf) && g.value(e).data is None
}

/// What was left after some steps, and what is known of edges.
pub proof fn lemma_extends(g: Graph, h: Graph, k: int)
    requires
        extends(g, h, k),
    ensures
        h.ok,
        h.sf_log == g.sf_log,
        h.num_edges <= g.num_edges + k,
        forall|n: int| #[trigger] ready(g, n) ==> ready(h, n - k),
        forall|e: usize, shape: Seq<usize>, sf: usize|
            #[trigger] holds(g, e, shape, sf) ==> holds(h, e, shape, sf),
        forall|e: usize, shape: Seq<usize>, sf: usize|
            #[trigger] computed(g, e, shape, sf) ==> computed(h, e, shape, sf),
{
    reveal(ready);
    reveal(extends);
    assert forall|e: usize| #[trigger] g.known(e) implies h.known(e) && h.value(e) == g.value(
        e,
    ) by {
        assert(g.values[e as int] == h.values[e as int]);
    }
}

pub proof fn lemma_extends_more(g: Graph, h: Graph, f: Graph, j: int, k: int)
    requires
        extends(g, h, j),
        extends(h, f, k),
    ensures
        extends(g, f, j + k),
{
    reveal(extends);
    assert forall|i: int| 0 <= i < g.values.len() implies g.values[i] == f.values[i] by {
        assert(g.values[i] == h.values[i]);
    }
    assert(g.values =~= f.values.take(g.values.len() as int));
}

/// Room for fewer steps.
pub broadcast proof fn lemma_ready_less(g: Graph, j: int, k: int)
    requires
        #[trigger] ready(g, k),
        j <= k,
    ensures
        #[trigger] ready(g, j),
{
    reveal(ready);
}

/// A constant.
pub proof fn lemma_param_fits(g: Graph, v: Value)
    requires
        ready(g, 1),
        v.role == Role::Constant,
    ensures
        extends(g, g.param(v).0, 1),
        holds(g.param(v).0, g.param(v).1, v.shape, v.sf),
{
    reveal(ready);
    reveal(extends);
}

pub proof fn lemma_nonneg_fits(g: Graph, a: usize)
    requires
        ready(g, 1),
    ensures
        extends(g, g.nonneg(a), 1),
{
    reveal(ready);
    reveal(extends);
    reveal(Graph::nonneg);
}

pub proof fn lemma_assert_zero_fits(g: Graph, a: usize)
    requires
        ready(g, 1),
    ensures
        extends(g, g.assert_zero(a), 1),
{
    reveal(ready);
    reveal(extends);
    reveal(Graph::assert_zero);
}

pub proof fn lemma_change_shape_fits(g: Graph, a: usize, shape: Seq<usize>)
    requires
        ready(g, 1),
        g.known(a),
    ensures
        extends(g, g.change_shape(a, shape).0, 1),
        computed(g.change_shape(a, shape).0, g.change_shape(a, shape).1, shape, g.value(a).sf),
{
    reveal(ready);
    reveal(extends);
    reveal(Graph::change_shape);
}

pub proof fn lemma_scale_fits(g: Graph, a: usize, i: usize, o: usize)
    requires
        ready(g, 2),
        g.known(a),
    ensures
        extends(g, g.scale(a, i, o).0, 2),
        computed(g.scale(a, i, o).0, g.scale(a, i, o).1[0], g.value(a).shape, o),
{
    reveal(ready);
    reveal(extends);
    reveal(Graph::scale);
}

/// A sum of products.
pub proof fn lemma_einsum_fits(g: Graph, e: Seq<char>, inputs: Seq<usize>, scale_back: bool)
    requires
        ready(g, 3),
        inputs.len() >= 1,
        g.all_known(inputs),
        equation_ok(e, g.shapes(inputs)),
        0 <= g.total_sf(inputs) <= usize::MAX,
    ensures
        extends(g, g.einsum(e, inputs, scale_back).0, 3),
        computed(
            g.einsum(e, inputs, scale_back).0,
            g.einsum(e, inputs, scale_back).1[0],
            equation_shape(e, g.shapes(inputs)),
            if scale_back {
                g.value(inputs[0]).sf
            } else {
                g.total_sf(inputs) as usize
            },
        ),
{
    reveal(ready);
    reveal(extends);
    reveal(Graph::einsum);
    let sf = g.total_sf(inputs) as usize;
    let first = g.value(inputs[0]);
    let shape = equation_shape(e, g.shapes(inputs));
    let (h, outs) = g.with_node(inputs, Op::Einsum(e));
    let h = h.with_value(empty_value(shape, first.data_type, sf, Role::Output));
    assert(extends(g, h, 1));
    assert(computed(h, outs[0], shape, sf));
    if scale_back {
        lemma_scale_fits(h, outs[0], sf, first.sf);
        lemma_extends_more(g, h, h.scale(outs[0], sf, first.sf).0, 1, 2);
    }
}

/// A sum of the entries of one tensor.
pub proof fn lemma_unary_fits(g: Graph, e: Seq<char>, a: usize, s: Seq<usize>, f: usize)
    requires
        ready(g, 3),
        holds(g, a, s, f),
        equation_ok(e, seq![s]),
    ensures
        extends(g, g.einsum(e, seq![a], false).0, 3),
        computed(
            g.einsum(e, seq![a], false).0,
            g.einsum(e, seq![a], false).1[0],
            equation_shape(e, seq![s]),
            f,
        ),
{
    let inputs = seq![a];
    assert(g.shapes(inputs) =~= seq![s]);
    assert(inputs.drop_last() =~= seq![]);
    reveal_with_fuel(Graph::total_sf, 2);
    lemma_einsum_fits(g, e, inputs, false);
}

/// A sum of products of the entries of two tensors.
pub proof fn lemma_binary_fits(
    g: Graph,
    e: Seq<char>,
    a: usize,
    b: usize,
    s: Seq<usize>,
    t: Seq<usize>,
    f: usize,
    d: usize,
    scale_back: bool,
)
    requires
        ready(g, 3),
        holds(g, a, s, f),
        holds(g, b, t, d),
        equation_ok(e, seq![s, t]),
        f + d <= usize::MAX,
    ensures
        extends(g, g.einsum(e, seq![a, b], scale_back).0, 3),
        computed(
            g.einsum(e, seq![a, b], scale_back).0,
            g.einsum(e, seq![a, b], scale_back).1[0],
            equation_shape(e, seq![s, t]),
            if scale_back {
                f
            } else {
                (f + d) as usize
            },
        ),
{
    let inputs = seq![a, b];
    assert(g.shapes(inputs) =~= seq![s, t]);
    assert(inputs.drop_last() =~= seq![a]);
    assert(seq![a].drop_last() =~= seq![]);
    reveal_with_fuel(Graph::total_sf, 3);
    lemma_einsum_fits(g, e, inputs, scale_back);
}

pub proof fn lemma_plus_fits(
    g: Graph,
    a: usize,
    b: usize,
    s: Seq<usize>,
    t: Seq<usize>,
    f: usize,
    d: usize,
)
    requires
        ready(g, 1),
        holds(g, a, s, f),
        holds(g, b, t, d),
        computed(g, a, s, f) || computed(g, b, t, d),
        compatible(s, t),
    ensures
        extends(g, g.plus(a, b).0, 1),
        computed(g.plus(a, b).0, g.plus(a, b).1[0], broadcasted(s, t), f),
{
    reveal(ready);
    reveal(extends);
    reveal(Graph::plus);
}

pub proof fn lemma_minus_fits(
    g: Graph,
    a: usize,
    b: usize,
    s: Seq<usize>,
    t: Seq<usize>,
    f: usize,
    d: usize,
)
    requires
        ready(g, 1),
        holds(g, a, s, f),
        holds(g, b, t, d),
        computed(g, a, s, f) || computed(g, b, t, d),
        compatible(s, t),
    ensures
        extends(g, g.minus(a, b).0, 1),
        computed(g.minus(a, b).0, g.minus(a, b).1[0], broadcasted(s, t), f),
{
    reveal(ready);
    reveal(extends);
    reveal(Graph::minus);
}

/// A shape is broadcast to itself.
pub proof fn lemma_same_shape(s: Seq<usize>)
    ensures
        compatible(s, s),
        broadcasted(s, s) == s,
{
    assert(broadcasted(s, s) =~= s);
}

/// A single entry is broadcast to any shape.
pub proof fn lemma_single_entry(s: Seq<usize>)
    requires
        s.len() >= 1,
    ensures
        compatible(s, seq![1usize]),
        broadcasted(s, seq![1usize]) == s,
        compatible(seq![1usize], s),
        broadcasted(seq![1usize], s) == s,
{
    assert(broadcasted(s, seq![1usize]) =~= s);
    assert(broadcasted(seq![1usize], s) =~= s);
}

/// Steps that follow others.
pub proof fn lemma_next(g: Graph, h: Graph, f: Graph, j: int, k: int)
    requires
        extends(g, h, j),
        extends(h, f, k),
    ensures
        extends(g, f, j + k),
        f.ok,
        f.sf_log == g.sf_log,
        f.num_edges <= h.num_edges + k,
        forall|n: int| #[trigger] ready(h, n) ==> ready(f, n - k),
        forall|e: usize, shape: Seq<usize>, sf: usize|
            #[trigger] holds(h, e, shape, sf) ==> holds(f, e, shape, sf),
        forall|e: usize, shape: Seq<usize>, sf: usize|
            #[trigger] computed(h, e, shape, sf) ==> computed(f, e, shape, sf),
{
    lemma_extends_more(g, h, f, j, k);
    lemma_extends(h, f, k);
    reveal(extends);
}

pub proof fn lemma_extends_self(g: Graph)
    requires
        ready(g, 0),
    ensures
        extends(g, g, 0),
        g.ok,
{
    reveal(ready);
    reveal(extends);
}

pub proof fn lemma_extends_loose(g: Graph, h: Graph, j: int, k: int)
    requires
        extends(g, h, j),
        j <= k,
    ensures
        extends(g, h, k),
{
    reveal(extends);
}

/// A condition that holds changes nothing.
pub proof fn lemma_need(g: Graph, c: bool)
    requires
        c,
    ensures
        g.need(c) == g,
{
    assert(g.need(c) =~= g);
}

/// A node with one output, followed by its value.
pub proof fn lemma_node_fits(g: Graph, inputs: Seq<usize>, op: Op, v: Value)
    requires
        ready(g, 1),
        op_arity(op) == 1,
        v.data is None,
    ensures
        extends(g, g.with_node(inputs, op).0.with_value(v), 1),
        computed(
            g.with_node(inputs, op).0.with_value(v),
            g.with_node(inputs, op).1[0],
            v.shape,
            v.sf,
        ),
{
    reveal(ready);
    reveal(extends);
}

/// Setting the padding to zero.
pub proof fn lemma_mask_fits(g: Graph, a: usize, shape: Seq<usize>, f: usize)
    requires
        ready(g, 4),
        holds(g, a, shape, f),
        shape.len() <= 26,
        num_vars(shape) < usize::BITS,
    ensures
        extends(g, g.mask(a, shape).0, 4),
        computed(g.mask(a, shape).0, g.mask(a, shape).1, shape, f),
{
    broadcast use lemma_ready_less;

    reveal(Graph::mask);
    lemma_extends_self(g);
    let g0 = g;
    let s = letters_of(shape.len());
    lemma_need(g, shape.len() <= 159 && num_vars(shape) < usize::BITS);
    let (g1, e) = g0.constant(shape, constant_table(shape, 1), 0);
    lemma_param_fits(
        g0,
        dense_value(shape, constant_table(shape, 1), DataType::Float, 0, Role::Constant),
    );
    lemma_next(g, g0, g1, 0, 1);
    let (g2, outs) = g1.einsum(s + ","@ + s + "->"@ + s, seq![a, e], false);
    lemma_entrywise(shape);
    lemma_binary_fits(g1, s + ","@ + s + "->"@ + s, a, e, shape, shape, f, 0, false);
    lemma_next(g, g1, g2, 1, 3);
}

/// Clamping.
pub proof fn lemma_clamp_lower_fits(g: Graph, x: usize, shape: Seq<usize>, f: usize)
    requires
        ready(g, 16),
        holds(g, x, shape, f),
        shape.len() <= 26,
        num_vars(shape) < usize::BITS,
        f < 60,
    ensures
        extends(g, g.clamp_lower(x).0, 16),
        computed(g.clamp_lower(x).0, g.clamp_lower(x).1, shape, f),
{
    broadcast use lemma_ready_less;

    reveal(Graph::clamp_lower);
    lemma_extends_self(g);
    let g0 = g;
    let w = g.value(x);
    let flat = seq![pow2(num_vars(shape)) as usize];
    let c = Graph::clamp_bound(w.sf);
    let v = empty_value(shape, w.data_type, f, Role::Output);
    let bound = dense_value(shape, constant_table(shape, c), w.data_type, f, Role::Constant);
    lemma_need(g, g.known(x) && w.sf < 60 && num_vars(w.shape) < usize::BITS);
    let (g1, m) = g0.mask(x, shape);
    lemma_mask_fits(g0, x, shape, f);
    lemma_next(g, g0, g1, 0, 4);
    let g2 = g1.with_node(seq![m], Op::ClampLower(c as u64)).0.with_value(v);
    lemma_node_fits(g1, seq![m], Op::ClampLower(c as u64), v);
    let y = g1.with_node(seq![m], Op::ClampLower(c as u64)).1[0];
    lemma_next(g, g1, g2, 4, 1);
    let (g3, delta) = g2.minus(y, m);
    lemma_same_shape(shape);
    lemma_minus_fits(g2, y, m, shape, shape, f, f);
    lemma_next(g, g2, g3, 5, 1);
    let (g4, delta_flat) = g3.change_shape(delta[0], flat);
    lemma_change_shape_fits(g3, delta[0], flat);
    lemma_next(g, g3, g4, 6, 1);
    let g5 = g4.nonneg(delta_flat);
    lemma_nonneg_fits(g4, delta_flat);
    lemma_next(g, g4, g5, 7, 1);
    let (g6, c_edge) = g5.param(bound);
    lemma_param_fits(g5, bound);
    lemma_next(g, g5, g6, 8, 1);
    let (g7, u) = g6.plus(y, c_edge);
    lemma_plus_fits(g6, y, c_edge, shape, shape, f, f);
    lemma_next(g, g6, g7, 9, 1);
    let (g8, u_flat) = g7.change_shape(u[0], flat);
    lemma_change_shape_fits(g7, u[0], flat);
    lemma_next(g, g7, g8, 10, 1);
    let g9 = g8.nonneg(u_flat);
    lemma_nonneg_fits(g8, u_flat);
    lemma_next(g, g8, g9, 11, 1);
    let (g10, z) = g9.einsum("a,a->a"@, seq![delta_flat, u_flat], false);
    lemma_a_a_a(flat[0]);
    lemma_binary_fits(g9, "a,a->a"@, delta_flat, u_flat, flat, flat, f, f, false);
    lemma_next(g, g9, g10, 12, 3);
    let g11 = g10.assert_zero(z[0]);
    lemma_assert_zero_fits(g10, z[0]);
    lemma_next(g, g10, g11, 15, 1);
}

/// A node with two outputs after their values.
pub proof fn lemma_pair_fits(g: Graph, inputs: Seq<usize>, op: Op, v: Value, w: Value)
    requires
        ready(g, 2),
        op_arity(op) == 2,
        v.data is None,
    ensures
        extends(g, g.with_value(v).with_value(w).with_range().with_node(inputs, op).0, 2),
        computed(
            g.with_value(v).with_value(w).with_range().with_node(inputs, op).0,
            g.num_edges,
            v.shape,
            v.sf,
        ),
        g.with_value(v).with_value(w).with_range().with_node(inputs, op).1[0] == g.num_edges,
{
    reveal(ready);
    reveal(extends);
}

pub proof fn lemma_two_pow_fits(g: Graph, a: usize, v: Value)
    requires
        ready(g, 1),
        v.data is None,
    ensures
        extends(g, g.with_two_pow().with_node(seq![a], Op::TwoPow).0.with_value(v), 1),
        computed(
            g.with_two_pow().with_node(seq![a], Op::TwoPow).0.with_value(v),
            g.with_two_pow().with_node(seq![a], Op::TwoPow).1[0],
            v.shape,
            v.sf,
        ),
{
    reveal(ready);
    reveal(extends);
}

pub proof fn lemma_constant_flat_fits(g: Graph, shape: Seq<usize>, flat: Seq<usize>, v: int)
    requires
        ready(g, 1),
    ensures
        extends(g, g.constant_flat(shape, flat, v).0, 1),
        holds(g.constant_flat(shape, flat, v).0, g.constant_flat(shape, flat, v).1, flat, 15),
{
    reveal(Graph::constant_flat);
    lemma_param_fits(
        g,
        dense_value(flat, constant_table(shape, v), DataType::Float, 15, Role::Constant),
    );
}

pub proof fn lemma_sigmoid_const_fits(g: Graph, a: usize)
    requires
        ready(g, 1),
        g.known(a),
    ensures
        extends(g, g.sigmoid_const(a).0, 1),
        computed(g.sigmoid_const(a).0, g.sigmoid_const(a).1[0], g.value(a).shape, g.value(a).sf),
{
    reveal(ready);
    reveal(extends);
    reveal(Graph::sigmoid_const);
}

/// The exponential.
pub proof fn lemma_exp_fits(g: Graph, a: usize, shape: Seq<usize>, f: usize)
    requires
        ready(g, 44),
        holds(g, a, shape, f),
        shape.len() <= 26,
        num_vars(shape) < usize::BITS,
        f < 60,
    ensures
        extends(g, g.exp(a).0, 44),
        computed(g.exp(a).0, g.exp(a).1[0], shape, g.sf_log),
{
    broadcast use lemma_ready_less;

    reveal(Graph::exp);
    lemma_extends_self(g);
    let g0 = g;
    let flat = seq![pow2(num_vars(shape)) as usize];
    lemma_same_shape(flat);
    lemma_a_a_a(flat[0]);
    let (g1, y) = g0.clamp_lower(a);
    lemma_clamp_lower_fits(g0, a, shape, f);
    lemma_next(g, g0, g1, 0, 16);
    let t = g1.value(y).data_type;
    let v = empty_value(shape, t, g.sf_log, Role::Output);
    let w = empty_value(seq![1usize], t, 0, Role::Auxiliary);
    let p = empty_value(shape, t, 15, Role::Output);
    let (g2, outs) = g1.with_value(v).with_value(w).with_range().with_node(
        seq![y],
        Op::ExpHelper(g.sf_log),
    );
    lemma_need(g1, g1.known(y) && num_vars(shape) < usize::BITS);
    lemma_pair_fits(g1, seq![y], Op::ExpHelper(g.sf_log), v, w);
    lemma_next(g, g1, g2, 16, 2);
    let (g3, r) = g2.scale(outs[0], g.sf_log, 15);
    lemma_scale_fits(g2, outs[0], g.sf_log, 15);
    lemma_next(g, g2, g3, 18, 2);
    let g4 = g3.with_two_pow().with_node(seq![outs[1]], Op::TwoPow).0.with_value(p);
    lemma_two_pow_fits(g3, outs[1], p);
    let looked_up = g3.with_two_pow().with_node(seq![outs[1]], Op::TwoPow).1[0];
    lemma_next(g, g3, g4, 20, 1);
    let (g5, power) = g4.change_shape(looked_up, flat);
    lemma_change_shape_fits(g4, looked_up, flat);
    lemma_next(g, g4, g5, 21, 1);
    let (g6, sixth) = g5.constant_flat(shape, flat, 5461);
    lemma_constant_flat_fits(g5, shape, flat, 5461);
    lemma_next(g, g5, g6, 22, 1);
    let (g7, half) = g6.constant_flat(shape, flat, 16384);
    lemma_constant_flat_fits(g6, shape, flat, 16384);
    lemma_next(g, g6, g7, 23, 1);
    let (g8, one) = g7.constant_flat(shape, flat, 32768);
    lemma_constant_flat_fits(g7, shape, flat, 32768);
    lemma_next(g, g7, g8, 24, 1);
    let (g9, r_flat) = g8.change_shape(r[0], flat);
    lemma_change_shape_fits(g8, r[0], flat);
    lemma_next(g, g8, g9, 25, 1);
    let (g10, square) = g9.einsum("a,a->a"@, seq![r_flat, r_flat], true);
    lemma_binary_fits(g9, "a,a->a"@, r_flat, r_flat, flat, flat, 15, 15, true);
    lemma_next(g, g9, g10, 26, 3);
    let (g11, r_sixth) = g10.einsum("a,a->a"@, seq![r_flat, sixth], true);
    lemma_binary_fits(g10, "a,a->a"@, r_flat, sixth, flat, flat, 15, 15, true);
    lemma_next(g, g10, g11, 29, 3);
    let (g12, plus_half) = g11.plus(r_sixth[0], half);
    lemma_plus_fits(g11, r_sixth[0], half, flat, flat, 15, 15);
    lemma_next(g, g11, g12, 32, 1);
    let (g13, high) = g12.einsum("a,a->a"@, seq![plus_half[0], square[0]], true);
    lemma_binary_fits(g12, "a,a->a"@, plus_half[0], square[0], flat, flat, 15, 15, true);
    lemma_next(g, g12, g13, 33, 3);
    let (g14, with_r) = g13.plus(high[0], r_flat);
    lemma_plus_fits(g13, high[0], r_flat, flat, flat, 15, 15);
    lemma_next(g, g13, g14, 36, 1);
    let (g15, exp_r) = g14.plus(with_r[0], one);
    lemma_plus_fits(g14, with_r[0], one, flat, flat, 15, 15);
    lemma_next(g, g14, g15, 37, 1);
    let (g16, product) = g15.einsum("a,a->a"@, seq![power, exp_r[0]], false);
    lemma_binary_fits(g15, "a,a->a"@, power, exp_r[0], flat, flat, 15, 15, false);
    lemma_next(g, g15, g16, 38, 3);
    let (g17, scaled) = g16.scale(product[0], 30, g.sf_log);
    lemma_scale_fits(g16, product[0], 30, g.sf_log);
    lemma_next(g, g16, g17, 41, 2);
    let (g18, out) = g17.change_shape(scaled[0], shape);
    lemma_change_shape_fits(g17, scaled[0], shape);
    lemma_next(g, g17, g18, 43, 1);
}

/// The sigmoid.
pub proof fn lemma_sigmoid_fits(g: Graph, a: usize, shape: Seq<usize>, f: usize)
    requires
        ready(g, 46),
        holds(g, a, shape, f),
        shape.len() <= 26,
        num_vars(shape) < usize::BITS,
        f < 60,
    ensures
        extends(g, g.sigmoid(a).0, 46),
        computed(g.sigmoid(a).0, g.sigmoid(a).1[0], shape, g.sf_log),
{
    broadcast use lemma_ready_less;

    reveal(Graph::sigmoid);
    lemma_extends_self(g);
    let g0 = g;
    let (g1, c) = g0.sigmoid_const(a);
    lemma_sigmoid_const_fits(g0, a);
    lemma_next(g, g0, g1, 0, 1);
    let (g2, shifted) = g1.plus(a, c[0]);
    lemma_same_shape(shape);
    lemma_plus_fits(g1, a, c[0], shape, shape, f, f);
    lemma_next(g, g1, g2, 1, 1);
    let (g3, r) = g2.exp(shifted[0]);
    lemma_exp_fits(g2, shifted[0], shape, f);
    lemma_next(g, g2, g3, 2, 44);
}

/// Splitting the last dimension.
pub proof fn lemma_split_fits(
    g: Graph,
    a: usize,
    b: usize,
    s: usize,
    n: usize,
    h: usize,
    d: usize,
    f: usize,
)
    requires
        ready(g, 4),
        holds(g, a, seq![b, s, n], f),
        d * h == n,
    ensures
        extends(g, g.reshape(a, seq![1, s, h, d]).0, 4),
        computed(
            g.reshape(a, seq![1, s, h, d]).0,
            g.reshape(a, seq![1, s, h, d]).1[0],
            seq![b, s, h, d],
            f,
        ),
{
    broadcast use lemma_ready_less;

    reveal(Graph::reshape);
    lemma_extends_self(g);
    let g0 = g;
    let (old_shape, shape) = (seq![b, s, n], seq![1, s, h, d]);
    lemma_need(g, g.known(a) && old_shape.len() >= 2);
    lemma_need(g, shape[3] * shape[2] == old_shape[2]);
    let (g1, x) = g0.change_shape(a, seq![b, s, d, h]);
    lemma_change_shape_fits(g0, a, seq![b, s, d, h]);
    lemma_next(g, g0, g1, 0, 1);
    let (g2, r) = g1.einsum("bsdh->bshd"@, seq![x], false);
    lemma_bsdh_bshd(b, s, d, h);
    lemma_unary_fits(g1, "bsdh->bshd"@, x, seq![b, s, d, h], f);
    lemma_next(g, g1, g2, 1, 3);
}

/// Joining the last two dimensions.
pub proof fn lemma_join_fits(
    g: Graph,
    a: usize,
    b: usize,
    s: usize,
    h: usize,
    d: usize,
    n: usize,
    f: usize,
)
    requires
        ready(g, 4),
        holds(g, a, seq![b, s, h, d], f),
        n == d * h,
    ensures
        extends(g, g.reshape(a, seq![1, s, n]).0, 4),
        computed(g.reshape(a, seq![1, s, n]).0, g.reshape(a, seq![1, s, n]).1[0], seq![1, s, n], f),
{
    broadcast use lemma_ready_less;

    reveal(Graph::reshape);
    lemma_extends_self(g);
    let g0 = g;
    let (old_shape, shape) = (seq![b, s, h, d], seq![1, s, n]);
    lemma_need(g, g.known(a) && old_shape.len() >= 2);
    lemma_need(g, shape.len() >= 1 && shape[2] == old_shape[3] * old_shape[2]);
    let (g1, o) = g0.einsum("bshd->bsdh"@, seq![a], false);
    lemma_bshd_bsdh(b, s, h, d);
    lemma_unary_fits(g0, "bshd->bsdh"@, a, seq![b, s, h, d], f);
    lemma_next(g, g0, g1, 0, 3);
    let (g2, r) = g1.change_shape(o[0], seq![1, s, n]);
    lemma_change_shape_fits(g1, o[0], seq![1, s, n]);
    lemma_next(g, g1, g2, 3, 1);
}

pub proof fn lemma_scalar_fits(g: Graph, v: u64, sf: usize)
    requires
        ready(g, 1),
    ensures
        extends(g, g.scalar(v, sf).0, 1),
        holds(g.scalar(v, sf).0, g.scalar(v, sf).1, seq![1usize], sf),
{
    reveal(Graph::scalar);
    lemma_param_fits(
        g,
        dense_value(seq![1usize], seq![v as int], DataType::Float, sf, Role::Constant),
    );
}

pub proof fn lemma_unit_fits(g: Graph, sf: usize)
    requires
        ready(g, 1),
        g.sf_log < 64,
    ensures
        extends(g, g.unit(sf).0, 1),
        holds(g.unit(sf).0, g.unit(sf).1, seq![1usize], sf),
{
    reveal(Graph::unit);
    lemma_need(g, g.sf_log < 64);
    lemma_scalar_fits(g, pow2(g.sf_log as nat) as u64, sf);
}

pub proof fn lemma_rms_reciprocal_fits(g: Graph, x: usize)
    requires
        ready(g, 1),
        g.known(x),
        g.value(x).shape.len() >= 1,
    ensures
        extends(g, g.rms_reciprocal(x).0, 1),
        computed(
            g.rms_reciprocal(x).0,
            g.rms_reciprocal(x).1[0],
            last_dropped(g.value(x).shape),
            g.value(x).sf,
        ),
{
    reveal(ready);
    reveal(extends);
    reveal(Graph::rms_reciprocal);
}

pub proof fn lemma_div_const_fits(g: Graph, a: usize, c: usize)
    requires
        ready(g, 1),
        g.known(a),
    ensures
        extends(g, g.div_const(a, c).0, 1),
        computed(g.div_const(a, c).0, g.div_const(a, c).1[0], g.value(a).shape, g.value(a).sf),
{
    reveal(ready);
    reveal(extends);
    reveal(Graph::div_const);
}

pub proof fn lemma_softmax_const_fits(g: Graph, a: usize)
    requires
        ready(g, 1),
        g.known(a),
        g.value(a).shape.len() >= 1,
    ensures
        extends(g, g.softmax_const(a).0, 1),
        computed(
            g.softmax_const(a).0,
            g.softmax_const(a).1[0],
            g.value(a).shape,
            g.value(a).sf,
        ),
{
    reveal(ready);
    reveal(extends);
    reveal(Graph::softmax_const);
}

/// A tolerance of one entry.
pub proof fn lemma_within_fits(g: Graph, a: usize, t: usize, shape: Seq<usize>, f: usize, d: usize)
    requires
        ready(g, 4),
        computed(g, a, shape, f),
        holds(g, t, seq![1usize], d),
        shape.len() >= 1,
    ensures
        extends(g, g.within(a, t), 4),
{
    broadcast use lemma_ready_less;

    reveal(Graph::within);
    lemma_extends_self(g);
    let g0 = g;
    let (g1, above) = g0.plus(a, t);
    lemma_single_entry(shape);
    lemma_plus_fits(g0, a, t, shape, seq![1usize], f, d);
    lemma_next(g, g0, g1, 0, 1);
    let (g2, below) = g1.minus(t, a);
    lemma_minus_fits(g1, t, a, seq![1usize], shape, d, f);
    lemma_next(g, g1, g2, 1, 1);
    let g3 = g2.nonneg(above[0]);
    lemma_nonneg_fits(g2, above[0]);
    lemma_next(g, g2, g3, 2, 1);
    let g4 = g3.nonneg(below[0]);
    lemma_nonneg_fits(g3, below[0]);
    lemma_next(g, g3, g4, 3, 1);
}

/// A checked mean.
pub proof fn lemma_checked_mean_fits(g: Graph, sum: usize, n: usize, s: usize, f: usize)
    requires
        ready(g, 13),
        holds(g, sum, seq![1, s], f),
    ensures
        extends(g, g.checked_mean(sum, n, seq![1, s, 1]).0, 13),
        computed(
            g.checked_mean(sum, n, seq![1, s, 1]).0,
            g.checked_mean(sum, n, seq![1, s, 1]).1,
            seq![1, s, 1],
            f,
        ),
{
    broadcast use lemma_ready_less;

    reveal(Graph::checked_mean);
    lemma_extends_self(g);
    let g0 = g;
    let shape = seq![1, s, 1];
    let (g1, mean) = g0.div_const(sum, n);
    lemma_div_const_fits(g0, sum, n);
    lemma_next(g, g0, g1, 0, 1);
    let (g2, m) = g1.change_shape(mean[0], shape);
    lemma_change_shape_fits(g1, mean[0], shape);
    lemma_next(g, g1, g2, 1, 1);
    let (g3, n_param) = g2.scalar(n as u32 as u64, 0);
    lemma_scalar_fits(g2, n as u32 as u64, 0);
    lemma_next(g, g2, g3, 2, 1);
    let (g4, tolerance) = g3.scalar((n / 2) as u32 as u64, g.sf_log);
    lemma_scalar_fits(g3, (n / 2) as u32 as u64, g.sf_log);
    lemma_next(g, g3, g4, 3, 1);
    let (g5, product) = g4.einsum("bsi,i->bsi"@, seq![m, n_param], false);
    lemma_bsi_i_bsi(1, s, 1);
    lemma_binary_fits(g4, "bsi,i->bsi"@, m, n_param, shape, seq![1usize], f, 0, false);
    lemma_next(g, g4, g5, 4, 3);
    let (g6, total) = g5.change_shape(sum, shape);
    lemma_change_shape_fits(g5, sum, shape);
    lemma_next(g, g5, g6, 7, 1);
    let (g7, difference) = g6.minus(total, product[0]);
    lemma_same_shape(shape);
    lemma_minus_fits(g6, total, product[0], shape, shape, f, f);
    lemma_next(g, g6, g7, 8, 1);
    let g8 = g7.within(difference[0], tolerance);
    lemma_within_fits(g7, difference[0], tolerance, shape, f, g.sf_log);
    lemma_next(g, g7, g8, 9, 4);
}

/// The root mean square norm.
pub proof fn lemma_rms_norm_fits(
    g: Graph,
    x: usize,
    w: usize,
    s: usize,
    n: usize,
    f: usize,
    d: usize,
)
    requires
        ready(g, 40),
        holds(g, x, seq![1, s, n], f),
        holds(g, w, seq![n], d),
        g.sf_log < 32,
        f < 60,
        d < 60,
    ensures
        extends(g, g.rms_norm(x, w).0, 40),
        computed(g.rms_norm(x, w).0, g.rms_norm(x, w).1[0], seq![1, s, n], f),
{
    broadcast use lemma_ready_less;

    reveal(Graph::rms_norm);
    lemma_extends_self(g);
    let g0 = g;
    let shape = seq![1, s, n];
    let row = seq![1, s, 1];
    lemma_need(g, g.known(x) && shape.len() >= 2);
    let (g1, r) = g0.rms_reciprocal(x);
    lemma_rms_reciprocal_fits(g0, x);
    assert(last_dropped(shape) =~= row);
    lemma_next(g, g0, g1, 0, 1);
    let (g2, unit) = g1.unit(g.sf_log);
    lemma_unit_fits(g1, g.sf_log);
    lemma_next(g, g1, g2, 1, 1);
    let (g3, tolerance) = g2.scalar(512, g.sf_log);
    lemma_scalar_fits(g2, 512, g.sf_log);
    lemma_next(g, g2, g3, 2, 1);
    let (g4, squares) = g3.einsum("bsi,bsi->bsi"@, seq![x, x], true);
    lemma_bsi_bsi_bsi(1, s, n);
    lemma_binary_fits(g3, "bsi,bsi->bsi"@, x, x, shape, shape, f, f, true);
    lemma_next(g, g3, g4, 3, 3);
    let (g5, sum) = g4.einsum("bsi->bs"@, seq![squares[0]], false);
    lemma_bsi_bs(1, s, n);
    lemma_unary_fits(g4, "bsi->bs"@, squares[0], shape, f);
    lemma_next(g, g4, g5, 6, 3);
    let (g6, mean) = g5.checked_mean(sum[0], n, row);
    lemma_checked_mean_fits(g5, sum[0], n, s, f);
    lemma_next(g, g5, g6, 9, 13);
    let (g7, r_square) = g6.einsum("bsi,bsi->bsi"@, seq![r[0], r[0]], false);
    lemma_bsi_bsi_bsi(1, s, 1);
    lemma_binary_fits(g6, "bsi,bsi->bsi"@, r[0], r[0], row, row, f, f, false);
    lemma_next(g, g6, g7, 22, 3);
    let (g8, z) = g7.einsum("bsi,bsi->bsi"@, seq![mean, r_square[0]], true);
    lemma_binary_fits(g7, "bsi,bsi->bsi"@, mean, r_square[0], row, row, f, (f + f) as usize, true);
    lemma_next(g, g7, g8, 25, 3);
    let (g9, z_diff) = g8.minus(z[0], unit);
    lemma_single_entry(row);
    lemma_minus_fits(g8, z[0], unit, row, seq![1usize], f, g.sf_log);
    lemma_next(g, g8, g9, 28, 1);
    let g10 = g9.within(z_diff[0], tolerance);
    lemma_within_fits(g9, z_diff[0], tolerance, row, f, g.sf_log);
    lemma_next(g, g9, g10, 29, 4);
    let (g11, factor) = g10.change_shape(r[0], seq![1, s]);
    lemma_change_shape_fits(g10, r[0], seq![1, s]);
    lemma_next(g, g10, g11, 33, 1);
    let (g12, h) = g11.einsum("bsi,bs->bsi"@, seq![x, factor], true);
    lemma_bsi_bs_bsi(1, s, n);
    lemma_binary_fits(g11, "bsi,bs->bsi"@, x, factor, shape, seq![1, s], f, f, true);
    lemma_next(g, g11, g12, 34, 3);
    let (g13, out) = g12.einsum("bsi,i->bsi"@, seq![h[0], w], true);
    lemma_bsi_i_bsi(1, s, n);
    lemma_binary_fits(g12, "bsi,i->bsi"@, h[0], w, shape, seq![n], f, d, true);
    lemma_next(g, g12, g13, 37, 3);
}

/// One entry for each position is broadcast to all entries.
pub proof fn lemma_row(s: usize, n: usize)
    ensures
        compatible(seq![1, s, n], seq![1, s, 1]),
        broadcasted(seq![1, s, n], seq![1, s, 1]) == seq![1, s, n],
{
    assert(broadcasted(seq![1, s, n], seq![1, s, 1]) =~= seq![1, s, n]);
}

/// The layer norm.
pub proof fn lemma_layer_norm_fits(
    g: Graph,
    x: usize,
    w: usize,
    s: usize,
    n: usize,
    f: usize,
    d: usize,
)
    requires
        ready(g, 61),
        holds(g, x, seq![1, s, n], f),
        holds(g, w, seq![n], d),
        num_vars(seq![1, s, n]) < usize::BITS,
        g.sf_log < 32,
        f < 60,
        d < 60,
    ensures
        extends(g, g.layer_norm(x, w).0, 61),
        computed(g.layer_norm(x, w).0, g.layer_norm(x, w).1[0], seq![1, s, n], f),
{
    broadcast use lemma_ready_less;

    reveal(Graph::layer_norm);
    lemma_extends_self(g);
    let g0 = g;
    let shape = seq![1, s, n];
    let row = seq![1, s, 1];
    lemma_need(g, g.known(x) && shape.len() >= 2);
    let (g1, sum) = g0.einsum("bsi->bs"@, seq![x], false);
    lemma_bsi_bs(1, s, n);
    lemma_unary_fits(g0, "bsi->bs"@, x, shape, f);
    lemma_next(g, g0, g1, 0, 3);
    let (g2, mean) = g1.checked_mean(sum[0], n, row);
    lemma_checked_mean_fits(g1, sum[0], n, s, f);
    lemma_next(g, g1, g2, 3, 13);
    let (g3, centred) = g2.minus(x, mean);
    lemma_row(s, n);
    lemma_minus_fits(g2, x, mean, shape, row, f, f);
    lemma_next(g, g2, g3, 16, 1);
    let (g4, masked) = g3.mask(centred[0], shape);
    lemma_mask_fits(g3, centred[0], shape, f);
    lemma_next(g, g3, g4, 17, 4);
    let (g5, out) = g4.rms_norm(masked, w);
    lemma_rms_norm_fits(g4, masked, w, s, n, f, d);
    lemma_next(g, g4, g5, 21, 40);
}

/// The projection with an approximate activation.
pub proof fn lemma_gelu_mlp_fits(
    g: Graph,
    x: usize,
    w_1: usize,
    w_2: usize,
    slope: u32,
    s: usize,
    n: usize,
    m: usize,
    f: usize,
    d: usize,
)
    requires
        ready(g, 59),
        holds(g, x, seq![1, s, n], f),
        holds(g, w_1, seq![n, m], d),
        holds(g, w_2, seq![m, n], d),
        num_vars(seq![1, s, m]) < usize::BITS,
        g.sf_log < 32,
        f < 60,
        d < 60,
    ensures
        extends(g, g.gelu_mlp(x, w_1, w_2, slope).0, 59),
        computed(
            g.gelu_mlp(x, w_1, w_2, slope).0,
            g.gelu_mlp(x, w_1, w_2, slope).1[0],
            seq![1, s, n],
            f,
        ),
{
    broadcast use lemma_ready_less;

    reveal(Graph::gelu_mlp);
    lemma_extends_self(g);
    let g0 = g;
    let shape = seq![1, s, m];
    let table = constant_table(shape, slope as int);
    let (g1, h_1) = g0.einsum("bsi,ij->bsj"@, seq![x, w_1], true);
    lemma_bsi_ij_bsj(1, s, n, m);
    lemma_binary_fits(g0, "bsi,ij->bsj"@, x, w_1, seq![1, s, n], seq![n, m], f, d, true);
    lemma_next(g, g0, g1, 0, 3);
    let (g2, constant) = g1.constant(shape, table, g.sf_log);
    lemma_need(g1, g1.known(h_1[0]) && num_vars(shape) < usize::BITS);
    lemma_param_fits(g1, dense_value(shape, table, DataType::Float, g.sf_log, Role::Constant));
    lemma_next(g, g1, g2, 3, 1);
    let (g3, scaled) = g2.einsum("bsi,bsi->bsi"@, seq![h_1[0], constant], true);
    lemma_bsi_bsi_bsi(1, s, m);
    lemma_binary_fits(g2, "bsi,bsi->bsi"@, h_1[0], constant, shape, shape, f, g.sf_log, true);
    lemma_next(g, g2, g3, 4, 3);
    let (g4, sigmoid) = g3.sigmoid(scaled[0]);
    lemma_sigmoid_fits(g3, scaled[0], shape, f);
    lemma_next(g, g3, g4, 7, 46);
    let (g5, active) = g4.einsum("bsi,bsi->bsi"@, seq![h_1[0], sigmoid[0]], true);
    lemma_binary_fits(g4, "bsi,bsi->bsi"@, h_1[0], sigmoid[0], shape, shape, f, g.sf_log, true);
    lemma_next(g, g4, g5, 53, 3);
    let (g6, out) = g5.einsum("bsi,ij->bsj"@, seq![active[0], w_2], true);
    lemma_bsi_ij_bsj(1, s, m, n);
    lemma_binary_fits(g5, "bsi,ij->bsj"@, active[0], w_2, seq![1, s, m], seq![m, n], f, d, true);
    lemma_next(g, g5, g6, 56, 3);
}

/// The gated projection.
pub proof fn lemma_gated_mlp_fits(
    g: Graph,
    x: usize,
    w_1: usize,
    w_2: usize,
    w_3: usize,
    s: usize,
    n: usize,
    m: usize,
    f: usize,
    d: usize,
)
    requires
        ready(g, 61),
        holds(g, x, seq![1, s, n], f),
        holds(g, w_1, seq![n, m], d),
        holds(g, w_2, seq![n, m], d),
        holds(g, w_3, seq![m, n], d),
        num_vars(seq![1, s, m]) < usize::BITS,
        g.sf_log < 32,
        f < 60,
        d < 60,
    ensures
        extends(g, g.gated_mlp(x, w_1, w_2, w_3).0, 61),
        computed(
            g.gated_mlp(x, w_1, w_2, w_3).0,
            g.gated_mlp(x, w_1, w_2, w_3).1[0],
            seq![1, s, n],
            f,
        ),
{
    broadcast use lemma_ready_less;

    reveal(Graph::gated_mlp);
    lemma_extends_self(g);
    let g0 = g;
    let shape = seq![1, s, m];
    let (g1, h_1) = g0.einsum("bsi,ij->bsj"@, seq![x, w_1], true);
    lemma_bsi_ij_bsj(1, s, n, m);
    lemma_binary_fits(g0, "bsi,ij->bsj"@, x, w_1, seq![1, s, n], seq![n, m], f, d, true);
    lemma_next(g, g0, g1, 0, 3);
    let (g2, sigmoid) = g1.sigmoid(h_1[0]);
    lemma_sigmoid_fits(g1, h_1[0], shape, f);
    lemma_next(g, g1, g2, 3, 46);
    let (g3, swish) = g2.einsum("bsi,bsi->bsi"@, seq![h_1[0], sigmoid[0]], true);
    lemma_bsi_bsi_bsi(1, s, m);
    lemma_binary_fits(g2, "bsi,bsi->bsi"@, h_1[0], sigmoid[0], shape, shape, f, g.sf_log, true);
    lemma_next(g, g2, g3, 49, 3);
    let (g4, h_2) = g3.einsum("bsi,ij->bsj"@, seq![x, w_2], true);
    lemma_bsi_ij_bsj(1, s, n, m);
    lemma_binary_fits(g3, "bsi,ij->bsj"@, x, w_2, seq![1, s, n], seq![n, m], f, d, true);
    lemma_next(g, g3, g4, 52, 3);
    let (g5, product) = g4.einsum("bsi,bsi->bsi"@, seq![swish[0], h_2[0]], true);
    lemma_binary_fits(g4, "bsi,bsi->bsi"@, swish[0], h_2[0], shape, shape, f, f, true);
    lemma_next(g, g4, g5, 55, 3);
    let (g6, out) = g5.einsum("bsi,ij->bsj"@, seq![product[0], w_3], true);
    lemma_bsi_ij_bsj(1, s, m, n);
    lemma_binary_fits(g5, "bsi,ij->bsj"@, product[0], w_3, seq![1, s, m], seq![m, n], f, d, true);
    lemma_next(g, g5, g6, 58, 3);
}

/// Splitting into heads.
pub proof fn lemma_heads_fits(g: Graph, x: usize, s: usize, n: usize, h: usize, d: usize, f: usize)
    requires
        ready(g, 4),
        holds(g, x, seq![1, s, n], f),
        d * h == n,
    ensures
        extends(g, g.heads(x, seq![1, s, h, d]).0, 4),
        computed(
            g.heads(x, seq![1, s, h, d]).0,
            g.heads(x, seq![1, s, h, d]).1,
            seq![1, s, h, d],
            f,
        ),
{
    broadcast use lemma_ready_less;

    reveal(Graph::heads);
    lemma_extends_self(g);
    let g0 = g;
    let (g1, out) = g0.reshape(x, seq![1, s, h, d]);
    lemma_split_fits(g0, x, 1, s, n, h, d, f);
    lemma_next(g, g0, g1, 0, 4);
}

/// Queries, keys and values.
pub proof fn lemma_projections_fits(
    g: Graph,
    x: usize,
    w: AttentionEdges,
    s: usize,
    n: usize,
    h: usize,
    c: usize,
    f: usize,
    d: usize,
)
    requires
        ready(g, 21),
        holds(g, x, seq![1, s, n], f),
        holds(g, w.q, seq![n, n], d),
        holds(g, w.k, seq![n, n], d),
        holds(g, w.v, seq![n, n], d),
        c * h == n,
        f < 60,
        d < 60,
    ensures
        extends(g, g.projections(x, w, seq![1, s, h, c]).0, 21),
        computed(
            g.projections(x, w, seq![1, s, h, c]).0,
            g.projections(x, w, seq![1, s, h, c]).1.0,
            seq![1, s, h, c],
            f,
        ),
        computed(
            g.projections(x, w, seq![1, s, h, c]).0,
            g.projections(x, w, seq![1, s, h, c]).1.1,
            seq![1, s, h, c],
            f,
        ),
        computed(
            g.projections(x, w, seq![1, s, h, c]).0,
            g.projections(x, w, seq![1, s, h, c]).1.2,
            seq![1, s, h, c],
            f,
        ),
{
    broadcast use lemma_ready_less;

    reveal(Graph::projections);
    lemma_extends_self(g);
    let g0 = g;
    let shape = seq![1, s, h, c];
    let (g1, q) = g0.einsum("bsi,ij->bsj"@, seq![x, w.q], true);
    lemma_bsi_ij_bsj(1, s, n, n);
    lemma_binary_fits(g0, "bsi,ij->bsj"@, x, w.q, seq![1, s, n], seq![n, n], f, d, true);
    lemma_next(g, g0, g1, 0, 3);
    let (g2, k) = g1.einsum("bsi,ij->bsj"@, seq![x, w.k], true);
    lemma_binary_fits(g1, "bsi,ij->bsj"@, x, w.k, seq![1, s, n], seq![n, n], f, d, true);
    lemma_next(g, g1, g2, 3, 3);
    let (g3, v) = g2.einsum("bsi,ij->bsj"@, seq![x, w.v], true);
    lemma_binary_fits(g2, "bsi,ij->bsj"@, x, w.v, seq![1, s, n], seq![n, n], f, d, true);
    lemma_next(g, g2, g3, 6, 3);
    let (g4, q_heads) = g3.heads(q[0], shape);
    lemma_heads_fits(g3, q[0], s, n, h, c, f);
    lemma_next(g, g3, g4, 9, 4);
    let (g5, k_heads) = g4.heads(k[0], shape);
    lemma_heads_fits(g4, k[0], s, n, h, c, f);
    lemma_next(g, g4, g5, 13, 4);
    let (g6, v_heads) = g5.heads(v[0], shape);
    lemma_heads_fits(g5, v[0], s, n, h, c, f);
    lemma_next(g, g5, g6, 17, 4);
}

/// Masking future positions.
pub proof fn lemma_causal_mask_fits(g: Graph, a: usize, seq_len: usize, shape: Seq<usize>, f: usize)
    requires
        ready(g, 2),
        computed(g, a, shape, f),
        shape.len() >= 2,
        f <= 22,
        num_vars(shape) < usize::BITS,
    ensures
        extends(g, g.causal_mask(a, seq_len).0, 2),
        computed(g.causal_mask(a, seq_len).0, g.causal_mask(a, seq_len).1, shape, f),
{
    broadcast use lemma_ready_less;

    reveal(Graph::causal_mask);
    lemma_extends_self(g);
    let g0 = g;
    let table = causal_table(shape, seq_len as nat, f as nat);
    lemma_need(g, g.known(a) && shape.len() >= 2 && f <= 22 && num_vars(shape) < usize::BITS);
    let (g1, mask) = g0.constant(shape, table, f);
    lemma_param_fits(g0, dense_value(shape, table, DataType::Float, f, Role::Constant));
    lemma_next(g, g0, g1, 0, 1);
    let (g2, out) = g1.plus(a, mask);
    lemma_same_shape(shape);
    lemma_plus_fits(g1, a, mask, shape, shape, f, f);
    lemma_next(g, g1, g2, 1, 1);
}

/// Attention, from heads to the weighted output.
pub proof fn lemma_attend_fits(
    g: Graph,
    parts: (usize, usize, usize),
    w_o: usize,
    root: u32,
    s: usize,
    h: usize,
    c: usize,
    n: usize,
    f: usize,
    d: usize,
)
    requires
        ready(g, 77),
        holds(g, parts.0, seq![1, s, h, c], f),
        holds(g, parts.1, seq![1, s, h, c], f),
        holds(g, parts.2, seq![1, s, h, c], f),
        holds(g, w_o, seq![n, n], d),
        n == c * h,
        num_vars(seq![1, h, s, s]) < usize::BITS,
        g.sf_log < 32,
        f <= 22,
        d < 60,
    ensures
        extends(g, g.attend(parts, w_o, root, s, n).0, 77),
        computed(
            g.attend(parts, w_o, root, s, n).0,
            g.attend(parts, w_o, root, s, n).1[0],
            seq![1, s, n],
            g.sf_log,
        ),
{
    broadcast use lemma_ready_less;

    reveal(Graph::attend);
    lemma_extends_self(g);
    let g0 = g;
    let part = seq![1, s, h, c];
    let head = seq![1, h, s, c];
    let square = seq![1, h, s, s];
    let (g1, q) = g0.einsum("bshd->bhsd"@, seq![parts.0], false);
    lemma_bshd_bhsd(1, s, h, c);
    lemma_unary_fits(g0, "bshd->bhsd"@, parts.0, part, f);
    lemma_next(g, g0, g1, 0, 3);
    let (g2, k) = g1.einsum("bshd->bhsd"@, seq![parts.1], false);
    lemma_unary_fits(g1, "bshd->bhsd"@, parts.1, part, f);
    lemma_next(g, g1, g2, 3, 3);
    let (g3, v) = g2.einsum("bshd->bhsd"@, seq![parts.2], false);
    lemma_unary_fits(g2, "bshd->bhsd"@, parts.2, part, f);
    lemma_next(g, g2, g3, 6, 3);
    let (g4, root_edge) = g3.scalar(root as u64, g.sf_log);
    lemma_scalar_fits(g3, root as u64, g.sf_log);
    lemma_next(g, g3, g4, 9, 1);
    let (g5, products) = g4.einsum("bhsd,bhtd->bhst"@, seq![q[0], k[0]], true);
    lemma_bhsd_bhtd_bhst(1, h, s, c, s);
    lemma_binary_fits(g4, "bhsd,bhtd->bhst"@, q[0], k[0], head, head, f, f, true);
    lemma_next(g, g4, g5, 10, 3);
    let (g6, scores) = g5.einsum("bhst,z->bhst"@, seq![products[0], root_edge], true);
    lemma_bhst_z_bhst(1, h, s, s, 1);
    lemma_binary_fits(
        g5,
        "bhst,z->bhst"@,
        products[0],
        root_edge,
        square,
        seq![1usize],
        f,
        g.sf_log,
        true,
    );
    lemma_next(g, g5, g6, 13, 3);
    let (g7, masked) = if s > 1 {
        g6.causal_mask(scores[0], s)
    } else {
        (g6, scores[0])
    };
    if s > 1 {
        lemma_causal_mask_fits(g6, scores[0], s, square, f);
    } else {
        lemma_extends_self(g6);
        lemma_extends_loose(g6, g6, 0, 2);
    }
    lemma_next(g, g6, g7, 16, 2);
    let (g8, shift) = g7.softmax_const(masked);
    lemma_softmax_const_fits(g7, masked);
    lemma_next(g, g7, g8, 18, 1);
    let (g9, shifted) = g8.plus(masked, shift[0]);
    lemma_same_shape(square);
    lemma_plus_fits(g8, masked, shift[0], square, square, f, f);
    lemma_next(g, g8, g9, 19, 1);
    let (g10, weights) = g9.exp(shifted[0]);
    lemma_exp_fits(g9, shifted[0], square, f);
    lemma_next(g, g9, g10, 20, 44);
    let (g11, mixed) = g10.einsum("bhst,bhtd->bhsd"@, seq![weights[0], v[0]], true);
    lemma_bhst_bhtd_bhsd(1, h, s, s, c);
    lemma_binary_fits(g10, "bhst,bhtd->bhsd"@, weights[0], v[0], square, head, g.sf_log, f, true);
    lemma_next(g, g10, g11, 64, 3);
    let (g12, by_position) = g11.einsum("bhsd->bshd"@, seq![mixed[0]], false);
    lemma_bhsd_bshd(1, h, s, c);
    lemma_unary_fits(g11, "bhsd->bshd"@, mixed[0], head, g.sf_log);
    lemma_next(g, g11, g12, 67, 3);
    let (g13, joined) = g12.reshape(by_position[0], seq![1, s, n]);
    lemma_join_fits(g12, by_position[0], 1, s, h, c, n, g.sf_log);
    lemma_next(g, g12, g13, 70, 4);
    let (g14, out) = g13.einsum("bsi,ij->bsj"@, seq![joined[0], w_o], true);
    lemma_bsi_ij_bsj(1, s, n, n);
    lemma_binary_fits(
        g13,
        "bsi,ij->bsj"@,
        joined[0],
        w_o,
        seq![1, s, n],
        seq![n, n],
        g.sf_log,
        d,
        true,
    );
    lemma_next(g, g13, g14, 74, 3);
}

/// Attention without position embedding.
pub proof fn lemma_plain_attention_fits(
    g: Graph,
    x: usize,
    w: AttentionEdges,
    p: Heads,
    n: usize,
    f: usize,
    d: usize,
)
    requires
        ready(g, 98),
        holds(g, x, seq![1, p.seq_len, n], f),
        holds(g, w.q, seq![n, n], d),
        holds(g, w.k, seq![n, n], d),
        holds(g, w.v, seq![n, n], d),
        holds(g, w.o, seq![n, n], d),
        n == p.n_head * p.head_dim,
        num_vars(seq![1, p.n_head, p.seq_len, p.seq_len]) < usize::BITS,
        g.sf_log < 32,
        f <= 22,
        d < 60,
    ensures
        extends(g, g.plain_attention(x, w, p).0, 98),
        computed(
            g.plain_attention(x, w, p).0,
            g.plain_attention(x, w, p).1[0],
            seq![1, p.seq_len, n],
            g.sf_log,
        ),
{
    broadcast use lemma_ready_less;

    reveal(Graph::plain_attention);
    lemma_extends_self(g);
    let g0 = g;
    lemma_need(g, p.n_head * p.head_dim <= usize::MAX);
    assert(p.head_dim * p.n_head == n) by (nonlinear_arith)
        requires
            n == p.n_head * p.head_dim,
    ;
    let (g1, parts) = g0.projections(x, w, seq![1, p.seq_len, p.n_head, p.head_dim]);
    lemma_projections_fits(g0, x, w, p.seq_len, n, p.n_head, p.head_dim, f, d);
    lemma_next(g, g0, g1, 0, 21);
    let (g2, out) = g1.attend(parts, w.o, p.root, p.seq_len, n);
    lemma_attend_fits(g1, parts, w.o, p.root, p.seq_len, p.n_head, p.head_dim, n, f, d);
    lemma_next(g, g1, g2, 21, 77);
}

/// Constants, each on the next edge.
pub proof fn lemma_params_fits(g: Graph, values: Seq<Value>)
    requires
        ready(g, values.len() as int),
        forall|i: int| 0 <= i < values.len() ==> (#[trigger] values[i]).role == Role::Constant,
    ensures
        extends(g, g.params(values), values.len() as int),
        g.params(values).num_edges == g.num_edges + values.len(),
        forall|i: int|
            0 <= i < values.len() ==> holds(
                g.params(values),
                g.edge_after(i),
                (#[trigger] values[i]).shape,
                values[i].sf,
            ),
    decreases values.len(),
{
    broadcast use lemma_ready_less;

    reveal(Graph::params);
    lemma_extends_self(g);
    if values.len() > 0 {
        let n = values.len() - 1;
        let rest = values.drop_last();
        lemma_params_fits(g, rest);
        let h = g.params(rest);
        lemma_extends(g, h, n);
        lemma_param_fits(h, values.last());
        lemma_next(g, h, h.param(values.last()).0, n, 1);
        reveal(ready);
        assert forall|i: int| 0 <= i < values.len() implies holds(
            g.params(values),
            g.edge_after(i),
            (#[trigger] values[i]).shape,
            values[i].sf,
        ) by {
            if i < n {
                assert(rest[i] == values[i]);
                assert(holds(h, g.edge_after(i), rest[i].shape, rest[i].sf));
            }
        }
    }
}

/// A constant of the given shape and fractional bits.
pub open spec fn weighs(v: Value, shape: Seq<usize>, sf: usize) -> bool {
    v.role == Role::Constant && v.shape == shape && v.sf == sf
}

/// The weights of a block of nanoGPT of width `n`, with projections of width `m`.
pub open spec fn nano_weights(weights: Seq<Value>, n: usize, m: usize, sf: usize) -> bool {
    &&& weights.len() == 8
    &&& weighs(weights[0], seq![n], sf)
    &&& weighs(weights[1], seq![n, n], sf)
    &&& weighs(weights[2], seq![n, n], sf)
    &&& weighs(weights[3], seq![n, n], sf)
    &&& weighs(weights[4], seq![n, n], sf)
    &&& weighs(weights[5], seq![n], sf)
    &&& weighs(weights[6], seq![n, m], sf)
    &&& weighs(weights[7], seq![m, n], sf)
}

/// The weights of a block of LLaMA of width `n`, with projections of width `m`.
pub open spec fn llama_weights(weights: Seq<Value>, n: usize, m: usize, sf: usize) -> bool {
    &&& weights.len() == 9
    &&& weighs(weights[0], seq![n], sf)
    &&& weighs(weights[1], seq![n, n], sf)
    &&& weighs(weights[2], seq![n, n], sf)
    &&& weighs(weights[3], seq![n, n], sf)
    &&& weighs(weights[4], seq![n, n], sf)
    &&& weighs(weights[5], seq![n], sf)
    &&& weighs(weights[6], seq![n, m], sf)
    &&& weighs(weights[7], seq![n, m], sf)
    &&& weighs(weights[8], seq![m, n], sf)
}

/// The tables of the tensors of a block can be held.
pub open spec fn sizes_fit(s: usize, heads: usize, n: usize, m: usize) -> bool {
    &&& num_vars(seq![1, s, n]) < usize::BITS
    &&& num_vars(seq![1, s, m]) < usize::BITS
    &&& num_vars(seq![1, heads, s, s]) < usize::BITS
}

/// A block of nanoGPT.
pub proof fn lemma_nanogpt_block_fits(
    g: Graph,
    x: usize,
    weights: Seq<Value>,
    p: Heads,
    n: usize,
    m: usize,
)
    requires
        ready(g, 289),
        holds(g, x, seq![1, p.seq_len, n], g.sf_log),
        nano_weights(weights, n, m, g.sf_log),
        n == p.n_head * p.head_dim,
        sizes_fit(p.seq_len, p.n_head, n, m),
        g.sf_log <= 22,
    ensures
        extends(g, g.nanogpt_block(x, weights, p).0, 289),
        computed(
            g.nanogpt_block(x, weights, p).0,
            g.nanogpt_block(x, weights, p).1[0],
            seq![1, p.seq_len, n],
            g.sf_log,
        ),
{
    broadcast use lemma_ready_less;

    reveal(Graph::nanogpt_block);
    lemma_extends_self(g);
    let g0 = g;
    let f = g.sf_log;
    let s = p.seq_len;
    let shape = seq![1, s, n];
    let w = AttentionEdges {
        q: g.edge_after(1),
        k: g.edge_after(2),
        v: g.edge_after(3),
        o: g.edge_after(4),
    };
    let g1 = g0.params(weights);
    lemma_params_fits(g0, weights);
    let e0 = g.edge_after(0);
    let e5 = g.edge_after(5);
    let e6 = g.edge_after(6);
    let e7 = g.edge_after(7);
    assert(holds(g1, e0, weights[0].shape, f));
    assert(holds(g1, w.q, weights[1].shape, f));
    assert(holds(g1, w.k, weights[2].shape, f));
    assert(holds(g1, w.v, weights[3].shape, f));
    assert(holds(g1, w.o, weights[4].shape, f));
    assert(holds(g1, e5, weights[5].shape, f));
    assert(holds(g1, e6, weights[6].shape, f));
    assert(holds(g1, e7, weights[7].shape, f));
    lemma_next(g, g0, g1, 0, 8);
    let (g2, norm) = g1.layer_norm(x, e0);
    lemma_layer_norm_fits(g1, x, e0, s, n, f, f);
    lemma_next(g, g1, g2, 8, 61);
    let (g3, attention) = g2.plain_attention(norm[0], w, p);
    lemma_plain_attention_fits(g2, norm[0], w, p, n, f, f);
    lemma_next(g, g2, g3, 69, 98);
    let (g4, middle) = g3.plus(attention[0], x);
    lemma_same_shape(shape);
    lemma_plus_fits(g3, attention[0], x, shape, shape, f, f);
    lemma_next(g, g3, g4, 167, 1);
    let (g5, second) = g4.layer_norm(middle[0], e5);
    lemma_layer_norm_fits(g4, middle[0], e5, s, n, f, f);
    lemma_next(g, g4, g5, 168, 61);
    let (g6, projection) = g5.gelu_mlp(second[0], e6, e7, p.slope);
    lemma_gelu_mlp_fits(g5, second[0], e6, e7, p.slope, s, n, m, f, f);
    lemma_next(g, g5, g6, 229, 59);
    let (g7, out) = g6.plus(projection[0], middle[0]);
    lemma_plus_fits(g6, projection[0], middle[0], shape, shape, f, f);
    lemma_next(g, g6, g7, 288, 1);
}

/// The first `k` blocks.
pub proof fn lemma_nanogpt_blocks_fits(
    g: Graph,
    x: usize,
    weights: Seq<Seq<Value>>,
    p: Heads,
    n: usize,
    m: usize,
    k: nat,
)
    requires
        ready(g, 289int * k),
        holds(g, x, seq![1, p.seq_len, n], g.sf_log),
        forall|i: int|
            0 <= i < k ==> nano_weights(#[trigger] layer_weights(weights, i), n, m, g.sf_log),
        n == p.n_head * p.head_dim,
        sizes_fit(p.seq_len, p.n_head, n, m),
        g.sf_log <= 22,
    ensures
        extends(g, g.nanogpt_blocks(x, weights, p, k).0, 289int * k),
        holds(
            g.nanogpt_blocks(x, weights, p, k).0,
            g.nanogpt_blocks(x, weights, p, k).1,
            seq![1, p.seq_len, n],
            g.sf_log,
        ),
    decreases k,
{
    broadcast use lemma_ready_less;

    lemma_extends_self(g);
    if k > 0 {
        let j = (k - 1) as nat;
        lemma_nanogpt_blocks_fits(g, x, weights, p, n, m, j);
        let (h, y) = g.nanogpt_blocks(x, weights, p, j);
        let layer = layer_weights(weights, k - 1);
        lemma_extends(g, h, 289int * j);
        lemma_nanogpt_block_fits(h, y, layer, p, n, m);
        lemma_next(g, h, h.nanogpt_block(y, layer, p).0, 289int * j, 289);
    }
}

/// Token and position embeddings.
pub proof fn lemma_embeddings_fits(
    g: Graph,
    onehot: usize,
    wte: usize,
    pos: usize,
    s: usize,
    v: usize,
    n: usize,
    f: usize,
    d: usize,
)
    requires
        ready(g, 4),
        holds(g, onehot, seq![1, s, v], f),
        holds(g, wte, seq![v, n], d),
        holds(g, pos, seq![1, s, n], d),
        f < 60,
        d < 60,
    ensures
        extends(g, g.embeddings(onehot, wte, pos).0, 4),
        computed(
            g.embeddings(onehot, wte, pos).0,
            g.embeddings(onehot, wte, pos).1[0],
            seq![1, s, n],
            f,
        ),
{
    broadcast use lemma_ready_less;

    reveal(Graph::embeddings);
    lemma_extends_self(g);
    let g0 = g;
    let (g1, emb) = g0.einsum("btv,ve->bte"@, seq![onehot, wte], true);
    lemma_btv_ve_bte(1, s, v, n);
    lemma_binary_fits(g0, "btv,ve->bte"@, onehot, wte, seq![1, s, v], seq![v, n], f, d, true);
    lemma_next(g, g0, g1, 0, 3);
    let (g2, out) = g1.plus(emb[0], pos);
    lemma_same_shape(seq![1, s, n]);
    lemma_plus_fits(g1, emb[0], pos, seq![1, s, n], seq![1, s, n], f, d);
    lemma_next(g, g1, g2, 3, 1);
}

/// The logits.
pub proof fn lemma_lm_head_fits(
    g: Graph,
    x: usize,
    w: usize,
    s: usize,
    n: usize,
    v: usize,
    f: usize,
    d: usize,
)
    requires
        ready(g, 3),
        holds(g, x, seq![1, s, n], f),
        holds(g, w, seq![v, n], d),
        f < 60,
        d < 60,
    ensures
        extends(g, g.lm_head(x, w).0, 3),
        computed(g.lm_head(x, w).0, g.lm_head(x, w).1[0], seq![1, s, v], f),
{
    broadcast use lemma_ready_less;

    reveal(Graph::lm_head);
    lemma_extends_self(g);
    let g0 = g;
    let (g1, out) = g0.einsum("bte,ve->btv"@, seq![x, w], true);
    lemma_bte_ve_btv(1, s, n, v);
    lemma_binary_fits(g0, "bte,ve->btv"@, x, w, seq![1, s, n], seq![v, n], f, d, true);
    lemma_next(g, g0, g1, 0, 3);
}

/// nanoGPT with weights of fitting shapes can be built on one-hot rows: its graph is `ok`, and the
/// logits have an entry for each position and token.
pub proof fn lemma_nanogpt_fits(
    g: Graph,
    onehot: usize,
    wte: Value,
    pos_emb: Value,
    weights: Seq<Seq<Value>>,
    norm_w: Value,
    mask: Value,
    n_layer: nat,
    p: Heads,
    v: usize,
    n: usize,
    m: usize,
)
    requires
        ready(g, 289int * n_layer + 72),
        holds(g, onehot, seq![1, p.seq_len, v], g.sf_log),
        weighs(wte, seq![v, n], g.sf_log),
        weighs(pos_emb, seq![1, p.seq_len, n], g.sf_log),
        all_have(weights, n_layer),
        forall|i: int|
            0 <= i < n_layer ==> nano_weights(
                #[trigger] layer_weights(weights, i),
                n,
                m,
                g.sf_log,
            ),
        weighs(norm_w, seq![n], g.sf_log),
        mask.role == Role::Constant,
        n == p.n_head * p.head_dim,
        sizes_fit(p.seq_len, p.n_head, n, m),
        g.sf_log <= 22,
    ensures
        ({
            let (h, r) = g.nanogpt(onehot, wte, pos_emb, weights, norm_w, mask, n_layer, p);
            &&& extends(g, h, 289int * n_layer + 72)
            &&& h.ok
            &&& computed(h, r[0], seq![1, p.seq_len, v], g.sf_log)
        }),
{
    broadcast use lemma_ready_less;

    let (f, s) = (g.sf_log, p.seq_len);
    lemma_extends_self(g);
    lemma_need(g, all_have(weights, n_layer));
    let (g1, wte_edge) = g.param(wte);
    lemma_param_fits(g, wte);
    lemma_next(g, g, g1, 0, 1);
    let (g2, pos) = g1.param(pos_emb);
    lemma_param_fits(g1, pos_emb);
    lemma_next(g, g1, g2, 1, 1);
    let (g3, emb) = g2.embeddings(onehot, wte_edge, pos);
    lemma_embeddings_fits(g2, onehot, wte_edge, pos, s, v, n, f, f);
    lemma_next(g, g2, g3, 2, 4);
    let (g4, _) = g3.param(mask);
    lemma_param_fits(g3, mask);
    lemma_next(g, g3, g4, 6, 1);
    let (g5, x) = g4.nanogpt_blocks(emb[0], weights, p, n_layer);
    lemma_nanogpt_blocks_fits(g4, emb[0], weights, p, n, m, n_layer);
    lemma_next(g, g4, g5, 7, 289int * n_layer);
    let (g6, w) = g5.param(norm_w);
    lemma_param_fits(g5, norm_w);
    lemma_next(g, g5, g6, 289int * n_layer + 7, 1);
    let (g7, norm) = g6.layer_norm(x, w);
    lemma_layer_norm_fits(g6, x, w, s, n, f, f);
    lemma_next(g, g6, g7, 289int * n_layer + 8, 61);
    let (g8, logits) = g7.lm_head(norm[0], wte_edge);
    lemma_lm_head_fits(g7, norm[0], wte_edge, s, n, v, f, f);
    lemma_next(g, g7, g8, 289int * n_layer + 69, 3);
}

/// Swapping the entries of pairs.
pub proof fn lemma_swap_pairs_fits(g: Graph, a: usize, s: usize, h: usize, c: usize, f: usize)
    requires
        ready(g, 4),
        holds(g, a, seq![1, s, h, c], f),
        c % 2 == 0,
        c * c <= usize::MAX,
    ensures
        extends(g, g.swap_pairs(a).0, 4),
        computed(g.swap_pairs(a).0, g.swap_pairs(a).1[0], seq![1, s, h, c], f),
{
    broadcast use lemma_ready_less;

    reveal(Graph::swap_pairs);
    lemma_extends_self(g);
    let g0 = g;
    let shape = seq![1, s, h, c];
    let table = pair_swap(c as nat);
    lemma_need(g, g.known(a) && shape.len() >= 1 && c % 2 == 0 && c * c <= usize::MAX);
    let (g1, perm) = g0.constant(seq![c, c], table, 0);
    lemma_param_fits(g0, dense_value(seq![c, c], table, DataType::Float, 0, Role::Constant));
    lemma_next(g, g0, g1, 0, 1);
    let (g2, out) = g1.einsum("bshd,de->bshe"@, seq![a, perm], false);
    lemma_bshd_de_bshe(1, s, h, c, c);
    lemma_binary_fits(g1, "bshd,de->bshe"@, a, perm, shape, seq![c, c], f, 0, false);
    lemma_next(g, g1, g2, 1, 3);
}

/// Rotary position embedding.
pub proof fn lemma_rope_fits(
    g: Graph,
    a: usize,
    cos: usize,
    sin: usize,
    s: usize,
    h: usize,
    c: usize,
    f: usize,
    d: usize,
)
    requires
        ready(g, 11),
        holds(g, a, seq![1, s, h, c], f),
        holds(g, cos, seq![s, c], d),
        holds(g, sin, seq![s, c], d),
        c % 2 == 0,
        c * c <= usize::MAX,
        f < 60,
        d < 60,
    ensures
        extends(g, g.rope_with_vecs(a, cos, sin).0, 11),
        computed(
            g.rope_with_vecs(a, cos, sin).0,
            g.rope_with_vecs(a, cos, sin).1[0],
            seq![1, s, h, c],
            f,
        ),
{
    broadcast use lemma_ready_less;

    reveal(Graph::rope_with_vecs);
    lemma_extends_self(g);
    let g0 = g;
    reveal(Graph::rotate);
    let shape = seq![1, s, h, c];
    let (g1, swapped) = g0.swap_pairs(a);
    lemma_swap_pairs_fits(g0, a, s, h, c, f);
    lemma_next(g, g0, g1, 0, 4);
    let (g2, sin_branch) = g1.einsum("bshd,sd->bshd"@, seq![swapped[0], sin], true);
    lemma_bshd_sd_bshd(1, s, h, c);
    lemma_binary_fits(g1, "bshd,sd->bshd"@, swapped[0], sin, shape, seq![s, c], f, d, true);
    lemma_next(g, g1, g2, 4, 3);
    let (g3, cos_branch) = g2.einsum("bshd,sd->bshd"@, seq![a, cos], true);
    lemma_binary_fits(g2, "bshd,sd->bshd"@, a, cos, shape, seq![s, c], f, d, true);
    lemma_next(g, g2, g3, 7, 3);
    let (g4, out) = g3.plus(sin_branch[0], cos_branch[0]);
    lemma_same_shape(shape);
    lemma_plus_fits(g3, sin_branch[0], cos_branch[0], shape, shape, f, f);
    lemma_next(g, g3, g4, 10, 1);
}

/// Attention with rotary position embedding.
pub proof fn lemma_rotary_attention_fits(
    g: Graph,
    x: usize,
    w: AttentionEdges,
    p: Rotary,
    n: usize,
    f: usize,
    d: usize,
)
    requires
        ready(g, 120),
        holds(g, x, seq![1, p.seq_len, n], f),
        holds(g, w.q, seq![n, n], d),
        holds(g, w.k, seq![n, n], d),
        holds(g, w.v, seq![n, n], d),
        holds(g, w.o, seq![n, n], d),
        holds(g, p.cos, seq![p.seq_len, p.head_dim], d),
        holds(g, p.sin, seq![p.seq_len, p.head_dim], d),
        n == p.num_heads * p.head_dim,
        p.head_dim % 2 == 0,
        p.head_dim * p.head_dim <= usize::MAX,
        num_vars(seq![1, p.num_heads, p.seq_len, p.seq_len]) < usize::BITS,
        g.sf_log < 32,
        f <= 22,
        d < 60,
    ensures
        extends(g, g.rotary_attention(x, w, p).0, 120),
        computed(
            g.rotary_attention(x, w, p).0,
            g.rotary_attention(x, w, p).1[0],
            seq![1, p.seq_len, n],
            g.sf_log,
        ),
{
    broadcast use lemma_ready_less;

    reveal(Graph::rotary_attention);
    lemma_extends_self(g);
    let g0 = g;
    let (s, h, c) = (p.seq_len, p.num_heads, p.head_dim);
    lemma_need(g, p.num_heads * p.head_dim <= usize::MAX);
    assert(c * h == n) by (nonlinear_arith)
        requires
            n == h * c,
    ;
    let (g1, parts) = g0.projections(x, w, seq![1, s, h, c]);
    lemma_projections_fits(g0, x, w, s, n, h, c, f, d);
    lemma_next(g, g0, g1, 0, 21);
    let (g2, q) = g1.rope_with_vecs(parts.0, p.cos, p.sin);
    lemma_rope_fits(g1, parts.0, p.cos, p.sin, s, h, c, f, d);
    lemma_next(g, g1, g2, 21, 11);
    let (g3, k) = g2.rope_with_vecs(parts.1, p.cos, p.sin);
    lemma_rope_fits(g2, parts.1, p.cos, p.sin, s, h, c, f, d);
    lemma_next(g, g2, g3, 32, 11);
    let (g4, out) = g3.attend((q[0], k[0], parts.2), w.o, p.root, s, n);
    lemma_attend_fits(g3, (q[0], k[0], parts.2), w.o, p.root, s, h, c, n, f, d);
    lemma_next(g, g3, g4, 43, 77);
}

/// The sizes of a rotary attention fit its width, and its cosines and sines their edges.
pub open spec fn rotary_fits(g: Graph, p: Rotary, n: usize) -> bool {
    &&& holds(g, p.cos, seq![p.seq_len, p.head_dim], g.sf_log)
    &&& holds(g, p.sin, seq![p.seq_len, p.head_dim], g.sf_log)
    &&& n == p.num_heads * p.head_dim
    &&& p.head_dim % 2 == 0
    &&& p.head_dim * p.head_dim <= usize::MAX
}

/// A block of LLaMA.
pub proof fn lemma_llama_block_fits(
    g: Graph,
    x: usize,
    weights: Seq<Value>,
    p: Rotary,
    n: usize,
    m: usize,
)
    requires
        ready(g, 272),
        holds(g, x, seq![1, p.seq_len, n], g.sf_log),
        llama_weights(weights, n, m, g.sf_log),
        rotary_fits(g, p, n),
        sizes_fit(p.seq_len, p.num_heads, n, m),
        g.sf_log <= 22,
    ensures
        extends(g, g.llama_block(x, weights, p).0, 272),
        computed(
            g.llama_block(x, weights, p).0,
            g.llama_block(x, weights, p).1[0],
            seq![1, p.seq_len, n],
            g.sf_log,
        ),
{
    broadcast use lemma_ready_less;

    reveal(Graph::llama_block);
    lemma_extends_self(g);
    let g0 = g;
    let f = g.sf_log;
    let s = p.seq_len;
    let shape = seq![1, s, n];
    let w = AttentionEdges {
        q: g.edge_after(1),
        k: g.edge_after(2),
        v: g.edge_after(3),
        o: g.edge_after(4),
    };
    let g1 = g0.params(weights);
    lemma_params_fits(g0, weights);
    let e0 = g.edge_after(0);
    let e5 = g.edge_after(5);
    let e6 = g.edge_after(6);
    let e7 = g.edge_after(7);
    let e8 = g.edge_after(8);
    assert(holds(g1, e0, weights[0].shape, f));
    assert(holds(g1, w.q, weights[1].shape, f));
    assert(holds(g1, w.k, weights[2].shape, f));
    assert(holds(g1, w.v, weights[3].shape, f));
    assert(holds(g1, w.o, weights[4].shape, f));
    assert(holds(g1, e5, weights[5].shape, f));
    assert(holds(g1, e6, weights[6].shape, f));
    assert(holds(g1, e7, weights[7].shape, f));
    assert(holds(g1, e8, weights[8].shape, f));
    lemma_next(g, g0, g1, 0, 9);
    let (g2, norm) = g1.rms_norm(x, e0);
    lemma_rms_norm_fits(g1, x, e0, s, n, f, f);
    lemma_next(g, g1, g2, 9, 40);
    let (g3, attention) = g2.rotary_attention(norm[0], w, p);
    lemma_rotary_attention_fits(g2, norm[0], w, p, n, f, f);
    lemma_next(g, g2, g3, 49, 120);
    let (g4, middle) = g3.plus(attention[0], x);
    lemma_same_shape(shape);
    lemma_plus_fits(g3, attention[0], x, shape, shape, f, f);
    lemma_next(g, g3, g4, 169, 1);
    let (g5, second) = g4.rms_norm(middle[0], e5);
    lemma_rms_norm_fits(g4, middle[0], e5, s, n, f, f);
    lemma_next(g, g4, g5, 170, 40);
    let (g6, projection) = g5.gated_mlp(second[0], e6, e7, e8);
    lemma_gated_mlp_fits(g5, second[0], e6, e7, e8, s, n, m, f, f);
    lemma_next(g, g5, g6, 210, 61);
    let (g7, out) = g6.plus(projection[0], middle[0]);
    lemma_plus_fits(g6, projection[0], middle[0], shape, shape, f, f);
    lemma_next(g, g6, g7, 271, 1);
}

/// The first `k` blocks.
pub proof fn lemma_llama_blocks_fits(
    g: Graph,
    x: usize,
    weights: Seq<Seq<Value>>,
    p: Rotary,
    n: usize,
    m: usize,
    k: nat,
)
    requires
        ready(g, 272int * k),
        holds(g, x, seq![1, p.seq_len, n], g.sf_log),
        forall|i: int|
            0 <= i < k ==> llama_weights(#[trigger] layer_weights(weights, i), n, m, g.sf_log),
        rotary_fits(g, p, n),
        sizes_fit(p.seq_len, p.num_heads, n, m),
        g.sf_log <= 22,
    ensures
        extends(g, g.llama_blocks(x, weights, p, k).0, 272int * k),
        holds(
            g.llama_blocks(x, weights, p, k).0,
            g.llama_blocks(x, weights, p, k).1,
            seq![1, p.seq_len, n],
            g.sf_log,
        ),
    decreases k,
{
    broadcast use lemma_ready_less;

    lemma_extends_self(g);
    if k > 0 {
        let j = (k - 1) as nat;
        lemma_llama_blocks_fits(g, x, weights, p, n, m, j);
        let (h, y) = g.llama_blocks(x, weights, p, j);
        let layer = layer_weights(weights, k - 1);
        lemma_extends(g, h, 272int * j);
        lemma_llama_block_fits(h, y, layer, p, n, m);
        lemma_next(g, h, h.llama_block(y, layer, p).0, 272int * j, 272);
    }
}

/// LLaMA with weights of fitting shapes can be built: its graph is `ok`, and the logits have an
/// entry for each position and token.
pub proof fn lemma_llama_fits(
    g: Graph,
    x: usize,
    weights: Seq<Seq<Value>>,
    layer_norm: Value,
    logits: Value,
    num_heads: usize,
    head_dim: usize,
    seq_len: usize,
    vocab_size: usize,
    cosines: Seq<i64>,
    sines: Seq<i64>,
    root: u32,
    n: usize,
    m: usize,
)
    requires
        ready(g, 272int * weights[0].len() + 48),
        holds(g, x, seq![1, seq_len, n], g.sf_log),
        all_have(weights, weights[0].len()),
        forall|i: int|
            0 <= i < weights[0].len() ==> llama_weights(
                #[trigger] layer_weights(weights, i),
                n,
                m,
                g.sf_log,
            ),
        weighs(layer_norm, seq![n], g.sf_log),
        weighs(logits, seq![n, vocab_size], g.sf_log),
        rotation_fits(head_dim as nat, seq_len as nat, cosines),
        rotation_fits(head_dim as nat, seq_len as nat, sines),
        n == num_heads * head_dim,
        head_dim * head_dim <= usize::MAX,
        sizes_fit(seq_len, num_heads, n, m),
        g.sf_log <= 22,
    ensures
        ({
            let (h, r) = g.llama(
                x,
                weights,
                layer_norm,
                logits,
                num_heads,
                head_dim,
                seq_len,
                vocab_size,
                cosines,
                sines,
                root,
            );
            &&& extends(g, h, 272int * weights[0].len() + 48)
            &&& h.ok
            &&& computed(h, r[0], seq![seq_len, vocab_size], g.sf_log)
        }),
{
    broadcast use lemma_ready_less;

    let (f, s, k) = (g.sf_log, seq_len, weights[0].len());
    let (d, len) = (head_dim as nat, seq_len as nat);
    let dims = seq![seq_len, head_dim];
    lemma_extends_self(g);
    lemma_need(
        g,
        rotation_fits(d, len, cosines) && rotation_fits(d, len, sines) && all_have(weights, k),
    );
    let cos_table = rotation_table(d, len, cosines, false);
    let (g1, cos) = g.constant(dims, cos_table, f);
    lemma_param_fits(g, dense_value(dims, cos_table, DataType::Float, f, Role::Constant));
    lemma_next(g, g, g1, 0, 1);
    let sin_table = rotation_table(d, len, sines, true);
    let (g2, sin) = g1.constant(dims, sin_table, f);
    lemma_param_fits(g1, dense_value(dims, sin_table, DataType::Float, f, Role::Constant));
    lemma_next(g, g1, g2, 1, 1);
    let p = Rotary { num_heads, head_dim, seq_len, cos, sin, root };
    let (g3, y) = g2.llama_blocks(x, weights, p, k);
    lemma_llama_blocks_fits(g2, x, weights, p, n, m, k);
    lemma_next(g, g2, g3, 2, 272int * k);
    let (g4, w) = g3.param(layer_norm);
    lemma_param_fits(g3, layer_norm);
    lemma_next(g, g3, g4, 272int * k + 2, 1);
    let (g5, norm) = g4.rms_norm(y, w);
    lemma_rms_norm_fits(g4, y, w, s, n, f, f);
    lemma_next(g, g4, g5, 272int * k + 3, 40);
    let (g6, w) = g5.param(logits);
    lemma_param_fits(g5, logits);
    lemma_next(g, g5, g6, 272int * k + 43, 1);
    let (g7, out) = g6.einsum("bij,jk->ik"@, seq![norm[0], w], true);
    lemma_bij_jk_ik(1, s, n, vocab_size);
    lemma_binary_fits(
        g6,
        "bij,jk->ik"@,
        norm[0],
        w,
        seq![1, s, n],
        seq![n, vocab_size],
        f,
        f,
        true,
    );
    lemma_next(g, g6, g7, 272int * k + 44, 3);
    let shape = seq![seq_len, vocab_size];
    let (g8, r) = g7.change_shape(out[0], shape);
    lemma_change_shape_fits(g7, out[0], shape);
    lemma_next(g, g7, g8, 272int * k + 47, 1);
}

/// Token embeddings by a selector.
pub proof fn lemma_embedding_lookup_fits(
    g: Graph,
    w_e: usize,
    s: usize,
    v: usize,
    ids: Seq<usize>,
    n: usize,
    f: usize,
)
    requires
        ready(g, 4),
        holds(g, w_e, seq![v, n], f),
        selectable(s as nat, v as nat, ids),
    ensures
        extends(g, g.embedding_lookup(w_e, s, v, ids).0, 4),
        computed(
            g.embedding_lookup(w_e, s, v, ids).0,
            g.embedding_lookup(w_e, s, v, ids).1.0,
            seq![s, n],
            f,
        ),
        holds(
            g.embedding_lookup(w_e, s, v, ids).0,
            g.embedding_lookup(w_e, s, v, ids).1.1,
            seq![s, v],
            0,
        ),
{
    broadcast use lemma_ready_less;

    lemma_extends_self(g);
    let g0 = g;
    lemma_need(g, selectable(s as nat, v as nat, ids));
    let (g1, e) = g0.param(one_hot_value(s, v, ids));
    lemma_param_fits(g0, one_hot_value(s, v, ids));
    lemma_next(g, g0, g1, 0, 1);
    let (g2, out) = g1.einsum("sv,vd->sd"@, seq![e, w_e], false);
    lemma_sv_vd_sd(s, v, n);
    lemma_binary_fits(g1, "sv,vd->sd"@, e, w_e, seq![s, v], seq![v, n], 0, f, false);
    lemma_next(g, g1, g2, 1, 3);
}

/// One entry for each row is broadcast to all columns.
pub proof fn lemma_column(s: usize, v: usize)
    ensures
        compatible(seq![s, 1], seq![s, v]),
{
}

/// The check of the arguments of the maximum.
pub proof fn lemma_argmax_check_fits(
    g: Graph,
    logits: usize,
    s: usize,
    v: usize,
    ids: Seq<usize>,
    f: usize,
)
    requires
        ready(g, 7),
        holds(g, logits, seq![s, v], f),
        selectable(s as nat, v as nat, ids),
    ensures
        extends(g, g.argmax_check(logits, s, v, ids).0, 7),
        holds(
            g.argmax_check(logits, s, v, ids).0,
            g.argmax_check(logits, s, v, ids).1,
            seq![s, v],
            0,
        ),
{
    broadcast use lemma_ready_less;

    lemma_extends_self(g);
    let g0 = g;
    lemma_need(g, selectable(s as nat, v as nat, ids));
    let (g1, e) = g0.param(one_hot_value(s, v, ids));
    lemma_param_fits(g0, one_hot_value(s, v, ids));
    lemma_next(g, g0, g1, 0, 1);
    let (g2, selected) = g1.einsum("sv,sv->s"@, seq![logits, e], false);
    lemma_sv_sv_s(s, v);
    lemma_binary_fits(g1, "sv,sv->s"@, logits, e, seq![s, v], seq![s, v], f, 0, false);
    lemma_next(g, g1, g2, 1, 3);
    let (g3, column) = g2.change_shape(selected[0], seq![s, 1]);
    lemma_change_shape_fits(g2, selected[0], seq![s, 1]);
    lemma_next(g, g2, g3, 4, 1);
    let (g4, diffs) = g3.minus(column, logits);
    lemma_column(s, v);
    lemma_minus_fits(g3, column, logits, seq![s, 1], seq![s, v], f, f);
    lemma_next(g, g3, g4, 5, 1);
    let g5 = g4.nonneg(diffs[0]);
    lemma_nonneg_fits(g4, diffs[0]);
    lemma_next(g, g4, g5, 6, 1);
}

} // verus!
