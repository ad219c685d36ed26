//! The checks of a graph pass on what they are meant for.
//!
//! That the checks ask for enough is stated with what the layers compute. Here it is stated that
//! they ask for no more: they pass wherever the numbers are within their tolerances.
use crate::arith::{ln2_at, num_vars};
use crate::dag::choices::{are_margins, lemma_argmax_check_run};
use crate::dag::entries::{padded, Tensor};
use crate::dag::equation::letters_of;
use crate::dag::exponential::{lemma_ln2_below, lemma_mask_run};
use crate::dag::fits::{
    computed, holds, lemma_binary_fits, lemma_change_shape_fits, lemma_div_const_fits,
    lemma_extends_self, lemma_mask_fits, lemma_minus_fits, lemma_need, lemma_next, lemma_node_fits,
    lemma_nonneg_fits, lemma_param_fits, lemma_plus_fits, lemma_ready_less, lemma_same_shape,
    lemma_scalar_fits, lemma_single_entry, ready,
};
use crate::dag::graph::{Graph, Op};
use crate::dag::mlps::lemma_dims;
use crate::dag::norms::{lemma_column_place, lemma_within_run};
use crate::dag::readings::{lemma_a_a_a, lemma_bsi_i_bsi};
use crate::dag::run::{
    at_least, group_step_part, lemma_binary_run, lemma_change_shape_run, lemma_constant_run,
    lemma_holds_run, lemma_minus_run, lemma_node_run, lemma_part_run, lemma_plus_run,
    lemma_scalar_run, Run,
};
use crate::dag::sums::{
    lemma_a_a_a_sum, lemma_bsi_i_bsi_sum, lemma_flat_vars, lemma_left_combined, lemma_padded_one,
    lemma_right_combined, lemma_same_combined,
};
use crate::shape::{constant_table, inside};
use crate::witness::{dense_value, empty_value, Role, Value};
use vstd::arithmetic::power2::pow2;
use vstd::prelude::*;

verus! {

/// All marked nodes are there, and the checks of the graph pass.
#[verifier::opaque]
pub open spec fn clean(g: Graph, run: Run) -> bool {
    &&& run.passes(g)
    &&& forall|i: int| 0 <= i < g.range.len() ==> #[trigger] g.range[i] < g.nodes.len()
    &&& forall|i: int| 0 <= i < g.zero_check.len() ==> #[trigger] g.zero_check[i] < g.nodes.len()
}

/// What is clean passes its checks.
pub broadcast proof fn lemma_clean_passes(g: Graph, run: Run)
    requires
        #[trigger] clean(g, run),
    ensures
        run.passes(g),
{
    reveal(clean);
}

/// In a graph that was built step by step all marked nodes are there.
pub proof fn lemma_sound_clean(g: Graph, run: Run)
    requires
        crate::dag::sound::sound(g),
        run.passes(g),
    ensures
        clean(g, run),
{
    reveal(clean);
    reveal(crate::dag::sound::sound);
}

/// One more node, which is no check.
pub proof fn lemma_clean_step(g: Graph, h: Graph, run: Run)
    requires
        clean(g, run),
        g.nodes.len() <= usize::MAX,
        h.nodes.len() == g.nodes.len() + 1,
        g.nodes.is_prefix_of(h.nodes),
        h.range == g.range || h.range == g.range.push(g.nodes.len() as usize),
        h.zero_check == g.zero_check,
        !(h.nodes.last().op is NonNegative),
    ensures
        clean(h, run),
{
    reveal(clean);
    reveal(Run::passes);
    assert forall|i: int|
        0 <= i < h.range.len() && #[trigger] h.range[i] < h.nodes.len() implies (
    h.nodes[h.range[i] as int].op matches Op::NonNegative(bits) ==> run.in_range(
        h.nodes[h.range[i] as int].inputs[0],
        bits,
    )) by {
        if i < g.range.len() {
            assert(g.range[i] == h.range[i]);
            assert(g.nodes[g.range[i] as int] == h.nodes[h.range[i] as int]);
        }
    }
    assert forall|i: int|
        0 <= i < h.zero_check.len() && #[trigger] h.zero_check[i]
            < h.nodes.len() implies run.is_zero(h.nodes[h.zero_check[i] as int].inputs[0]) by {
        assert(g.zero_check[i] < g.nodes.len());
        assert(g.nodes[g.zero_check[i] as int] == h.nodes[h.zero_check[i] as int]);
    }
    assert forall|i: int| 0 <= i < h.range.len() implies #[trigger] h.range[i] < h.nodes.len() by {
        if i < g.range.len() {
            assert(g.range[i] == h.range[i]);
        }
    }
}

/// No node more.
proof fn lemma_clean_same(g: Graph, h: Graph, run: Run)
    requires
        clean(g, run),
        h.nodes == g.nodes,
        h.range == g.range,
        h.zero_check == g.zero_check,
    ensures
        clean(h, run),
{
    reveal(clean);
    reveal(Run::passes);
}

pub broadcast proof fn lemma_param_clean(g: Graph, v: Value, run: Run)
    requires
        #[trigger] clean(g, run),
    ensures
        clean((#[trigger] g.param(v)).0, run),
{
    lemma_clean_same(g, g.param(v).0, run);
}

pub broadcast proof fn lemma_scalar_clean(g: Graph, v: u64, sf: usize, run: Run)
    requires
        #[trigger] clean(g, run),
    ensures
        clean((#[trigger] g.scalar(v, sf)).0, run),
{
    reveal(Graph::scalar);
    lemma_clean_same(g, g.scalar(v, sf).0, run);
}

pub broadcast proof fn lemma_unit_clean(g: Graph, sf: usize, run: Run)
    requires
        #[trigger] clean(g, run),
    ensures
        clean((#[trigger] g.unit(sf)).0, run),
{
    reveal(Graph::unit);
    reveal(Graph::scalar);
    lemma_clean_same(g, g.unit(sf).0, run);
}

pub broadcast proof fn lemma_change_shape_clean(g: Graph, a: usize, shape: Seq<usize>, run: Run)
    requires
        #[trigger] clean(g, run),
        ready(g, 1),
    ensures
        clean((#[trigger] g.change_shape(a, shape)).0, run),
{
    reveal(ready);
    reveal(Graph::change_shape);
    lemma_clean_step(g, g.change_shape(a, shape).0, run);
}

pub broadcast proof fn lemma_scale_clean(g: Graph, a: usize, i: usize, o: usize, run: Run)
    requires
        #[trigger] clean(g, run),
        g.nodes.len() <= usize::MAX,
    ensures
        clean((#[trigger] g.scale(a, i, o)).0, run),
{
    reveal(Graph::scale);
    lemma_clean_step(g, g.scale(a, i, o).0, run);
}

pub broadcast proof fn lemma_einsum_clean(
    g: Graph,
    e: Seq<char>,
    inputs: Seq<usize>,
    back: bool,
    run: Run,
)
    requires
        #[trigger] clean(g, run),
        ready(g, 3),
    ensures
        clean((#[trigger] g.einsum(e, inputs, back)).0, run),
{
    reveal(ready);
    reveal(Graph::einsum);
    let (h, outs) = g.einsum(e, inputs, false);
    lemma_clean_step(g, h, run);
    if back {
        let first = g.value(inputs[0]);
        lemma_scale_clean(h, outs[0], g.total_sf(inputs) as usize, first.sf, run);
    }
}

pub broadcast proof fn lemma_plus_clean(g: Graph, a: usize, b: usize, run: Run)
    requires
        #[trigger] clean(g, run),
        ready(g, 1),
    ensures
        clean((#[trigger] g.plus(a, b)).0, run),
{
    reveal(ready);
    reveal(Graph::plus);
    lemma_clean_step(g, g.plus(a, b).0, run);
}

pub broadcast proof fn lemma_minus_clean(g: Graph, a: usize, b: usize, run: Run)
    requires
        #[trigger] clean(g, run),
        ready(g, 1),
    ensures
        clean((#[trigger] g.minus(a, b)).0, run),
{
    reveal(ready);
    reveal(Graph::minus);
    lemma_clean_step(g, g.minus(a, b).0, run);
}

pub broadcast proof fn lemma_div_const_clean(g: Graph, a: usize, c: usize, run: Run)
    requires
        #[trigger] clean(g, run),
        ready(g, 1),
    ensures
        clean((#[trigger] g.div_const(a, c)).0, run),
{
    reveal(ready);
    reveal(Graph::div_const);
    lemma_clean_step(g, g.div_const(a, c).0, run);
}

pub broadcast proof fn lemma_rms_reciprocal_clean(g: Graph, a: usize, run: Run)
    requires
        #[trigger] clean(g, run),
        ready(g, 1),
    ensures
        clean((#[trigger] g.rms_reciprocal(a)).0, run),
{
    reveal(ready);
    reveal(Graph::rms_reciprocal);
    lemma_clean_step(g, g.rms_reciprocal(a).0, run);
}

/// Steps without a check.
pub broadcast group group_clean {
    lemma_param_clean,
    lemma_scalar_clean,
    lemma_unit_clean,
    lemma_change_shape_clean,
    lemma_einsum_clean,
    lemma_plus_clean,
    lemma_minus_clean,
    lemma_div_const_clean,
    lemma_rms_reciprocal_clean,
}

/// A range check passes on a tensor in its range.
pub proof fn lemma_nonneg_clean(g: Graph, a: usize, run: Run)
    requires
        clean(g, run),
        ready(g, 1),
        run.in_range(a, g.table_size_log),
    ensures
        clean(g.nonneg(a), run),
{
    reveal(ready);
    reveal(Graph::nonneg);
    reveal(clean);
    reveal(Run::passes);
    let h = g.nonneg(a);
    assert forall|i: int|
        0 <= i < h.range.len() && #[trigger] h.range[i] < h.nodes.len() implies (
    h.nodes[h.range[i] as int].op matches Op::NonNegative(bits) ==> run.in_range(
        h.nodes[h.range[i] as int].inputs[0],
        bits,
    )) by {
        if i < g.range.len() {
            assert(g.range[i] == h.range[i]);
            assert(g.nodes[g.range[i] as int] == h.nodes[h.range[i] as int]);
        }
    }
    assert forall|i: int|
        0 <= i < h.zero_check.len() && #[trigger] h.zero_check[i]
            < h.nodes.len() implies run.is_zero(h.nodes[h.zero_check[i] as int].inputs[0]) by {
        assert(g.zero_check[i] < g.nodes.len());
        assert(g.nodes[g.zero_check[i] as int] == h.nodes[h.zero_check[i] as int]);
    }
    assert forall|i: int| 0 <= i < h.range.len() implies #[trigger] h.range[i] < h.nodes.len() by {
        if i < g.range.len() {
            assert(g.range[i] == h.range[i]);
        }
    }
}

/// A check for zero passes on a tensor of zeros.
pub proof fn lemma_assert_zero_clean(g: Graph, a: usize, run: Run)
    requires
        clean(g, run),
        ready(g, 1),
        run.is_zero(a),
    ensures
        clean(g.assert_zero(a), run),
{
    reveal(ready);
    reveal(Graph::assert_zero);
    reveal(clean);
    reveal(Run::passes);
    let h = g.assert_zero(a);
    assert forall|i: int|
        0 <= i < h.range.len() && #[trigger] h.range[i] < h.nodes.len() implies (
    h.nodes[h.range[i] as int].op matches Op::NonNegative(bits) ==> run.in_range(
        h.nodes[h.range[i] as int].inputs[0],
        bits,
    )) by {
        assert(g.range[i] < g.nodes.len());
        assert(g.nodes[g.range[i] as int] == h.nodes[h.range[i] as int]);
    }
    assert forall|i: int|
        0 <= i < h.zero_check.len() && #[trigger] h.zero_check[i]
            < h.nodes.len() implies run.is_zero(h.nodes[h.zero_check[i] as int].inputs[0]) by {
        if i < g.zero_check.len() {
            assert(g.zero_check[i] == h.zero_check[i]);
            assert(g.nodes[g.zero_check[i] as int] == h.nodes[h.zero_check[i] as int]);
        }
    }
    assert forall|i: int| 0 <= i < h.zero_check.len() implies #[trigger] h.zero_check[i]
        < h.nodes.len() by {
        if i < g.zero_check.len() {
            assert(g.zero_check[i] == h.zero_check[i]);
        }
    }
}

/// The checks of a tolerance pass exactly on the tensors within it: here that they do on these, as
/// long as twice the tolerance fits the table.
pub proof fn lemma_within_clean(
    g: Graph,
    a: usize,
    t: usize,
    shape: Seq<usize>,
    f: usize,
    d: usize,
    run: Run,
)
    requires
        ready(g, 4),
        computed(g, a, shape, f),
        holds(g, t, seq![1usize], d),
        shape.len() >= 1,
        run.computes(g.within(a, t)),
        clean(g, run),
        2 * run.on(t).table[0] < pow2(g.table_size_log as nat),
        forall|p: int|
            0 <= p < pow2(num_vars(shape)) ==> -run.on(t).table[0] <= #[trigger] run.on(a).table[p]
                <= run.on(t).table[0],
    ensures
        clean(g.within(a, t), run),
{
    broadcast use lemma_ready_less, group_step_part, lemma_part_run, lemma_holds_run, group_clean;

    lemma_within_run(g, a, t, shape, f, d, run);
    reveal(Graph::within);
    lemma_extends_self(g);
    let (g1, above) = g.plus(a, t);
    lemma_single_entry(shape);
    lemma_plus_fits(g, a, t, shape, seq![1usize], f, d);
    lemma_next(g, g, g1, 0, 1);
    let (g2, below) = g1.minus(t, a);
    lemma_minus_fits(g1, t, a, seq![1usize], shape, d, f);
    lemma_next(g, g1, g2, 1, 1);
    let g3 = g2.nonneg(above[0]);
    lemma_nonneg_fits(g2, above[0]);
    lemma_next(g, g2, g3, 2, 1);
    let g4 = g3.nonneg(below[0]);
    assert(run.computes(g3) && run.computes(g2) && run.computes(g1) && run.computes(g));
    lemma_plus_run(g, a, t, run);
    lemma_minus_run(g1, t, a, run);
    let bits = g.table_size_log;
    assert(g2.table_size_log == bits && g3.table_size_log == bits) by {
        reveal(crate::dag::fits::extends);
    }
    assert(run.on(above[0]).full() && run.on(below[0]).full());
    assert forall|p: int| 0 <= p < run.on(above[0]).table.len() implies 0 <= #[trigger] run.on(
        above[0],
    ).table[p] < pow2(bits as nat) by {
        lemma_right_combined(run.on(a), run.on(t), run.on(above[0]), false, p);
        assert(run.on(a).table[p] <= run.on(t).table[0]);
    }
    assert forall|p: int| 0 <= p < run.on(below[0]).table.len() implies 0 <= #[trigger] run.on(
        below[0],
    ).table[p] < pow2(bits as nat) by {
        lemma_left_combined(run.on(t), run.on(a), run.on(below[0]), true, p);
        assert(run.on(a).table[p] <= run.on(t).table[0]);
    }
    lemma_nonneg_clean(g2, above[0], run);
    lemma_nonneg_clean(g3, below[0], run);
}

/// The check of a mean passes where it is within half a step of the exact one.
pub proof fn lemma_checked_mean_clean(g: Graph, sum: usize, n: usize, s: usize, f: usize, run: Run)
    requires
        ready(g, 13),
        holds(g, sum, seq![1, s], f),
        run.on(sum).full(),
        run.computes(g.checked_mean(sum, n, seq![1, s, 1]).0),
        clean(g, run),
        n <= u32::MAX,
        n < pow2(g.table_size_log as nat),
        are_close(run.on(sum), run.on(g.checked_mean(sum, n, seq![1, s, 1]).1), s, n),
    ensures
        clean(g.checked_mean(sum, n, seq![1, s, 1]).0, run),
{
    broadcast use lemma_ready_less, group_step_part, lemma_part_run, lemma_holds_run, group_clean;

    reveal(Graph::checked_mean);
    lemma_extends_self(g);
    let shape = seq![1, s, 1];
    let (g1, quotient) = g.div_const(sum, n);
    lemma_div_const_fits(g, sum, n);
    lemma_next(g, g, g1, 0, 1);
    let (g2, m) = g1.change_shape(quotient[0], shape);
    lemma_change_shape_fits(g1, quotient[0], shape);
    lemma_next(g, g1, g2, 1, 1);
    let (g3, n_param) = g2.scalar(n as u32 as u64, 0);
    lemma_scalar_fits(g2, n as u32 as u64, 0);
    lemma_next(g, g2, g3, 2, 1);
    let (g4, tolerance) = g3.scalar((n / 2) as u32 as u64, g.sf_log);
    lemma_scalar_fits(g3, (n / 2) as u32 as u64, g.sf_log);
    lemma_next(g, g3, g4, 3, 1);
    let (g5, product) = g4.einsum("bsi,i->bsi"@, seq![m, n_param], false);
    lemma_bsi_i_bsi(1, s, 1);
    lemma_binary_fits(g4, "bsi,i->bsi"@, m, n_param, shape, seq![1usize], f, 0, false);
    lemma_next(g, g4, g5, 4, 3);
    let (g6, total) = g5.change_shape(sum, shape);
    lemma_change_shape_fits(g5, sum, shape);
    lemma_next(g, g5, g6, 7, 1);
    let (g7, difference) = g6.minus(total, product[0]);
    lemma_same_shape(shape);
    lemma_minus_fits(g6, total, product[0], shape, shape, f, f);
    lemma_next(g, g6, g7, 8, 1);
    let g8 = g7.within(difference[0], tolerance);
    lemma_within_run(g7, difference[0], tolerance, shape, f, g.sf_log, run);
    assert(run.computes(g7) && run.computes(g6) && run.computes(g5) && run.computes(g4));
    assert(run.computes(g3) && run.computes(g2) && run.computes(g1) && run.computes(g));
    assert(clean(g1, run) && clean(g2, run) && clean(g3, run) && clean(g4, run));
    assert(clean(g5, run) && clean(g6, run) && clean(g7, run));
    lemma_scalar_run(g2, n as u32 as u64, 0, run);
    lemma_scalar_run(g3, (n / 2) as u32 as u64, g.sf_log, run);
    let t = lemma_binary_run(
        g4,
        "bsi,i->bsi"@,
        m,
        n_param,
        shape,
        seq![1usize],
        f,
        0,
        false,
        run,
    );
    lemma_change_shape_run(g5, sum, shape, run);
    lemma_minus_run(g6, total, product[0], run);
    lemma_padded_one();
    lemma_dims(s, s);
    lemma_column_place(s, 0);
    assert(g7.table_size_log == g.table_size_log) by {
        reveal(crate::dag::fits::extends);
    }
    assert forall|p: int| 0 <= p < pow2(num_vars(shape)) implies -run.on(tolerance).table[0]
        <= #[trigger] run.on(difference[0]).table[p] <= run.on(tolerance).table[0] by {
        lemma_column_place(s, p);
        lemma_bsi_i_bsi_sum(run.on(m), run.on(n_param), t, 1, s, 1, 0, p, 0);
        crate::dag::entries::lemma_places(seq![1usize], seq![0int]);
        lemma_same_combined(run.on(total), run.on(product[0]), run.on(difference[0]), true, p);
        let mean = run.on(m).table[p];
        assert(-(n / 2) <= run.on(sum).table[p] - mean * n <= n / 2);
        assert(run.on(difference[0]).table[p] == run.on(sum).table[p] - mean * n);
    }
    lemma_within_clean(g7, difference[0], tolerance, shape, f, g.sf_log, run);
}

/// The means are within half a step of the exact ones.
pub open spec fn are_close(sums: Tensor, means: Tensor, s: usize, n: usize) -> bool {
    forall|i: int|
        0 <= i < padded(s) ==> -(n / 2) <= sums.table[i] - #[trigger] means.table[i] * n <= n / 2
}

/// The checks of clamping pass on the clamped numbers, as long as these and what is added to them
/// fit the table.
pub proof fn lemma_clamp_lower_clean(g: Graph, x: usize, shape: Seq<usize>, f: usize, run: Run)
    requires
        ready(g, 16),
        holds(g, x, shape, f),
        shape.len() <= 26,
        num_vars(shape) < usize::BITS,
        f < 60,
        run.computes(g.clamp_lower(x).0),
        run.honest,
        clean(g, run),
        forall|p: int|
            0 <= p < pow2(num_vars(shape)) && inside(shape, p) ==> {
                let v = #[trigger] run.on(x).table[p];
                let c = 14 * ln2_at(f as nat);
                &&& -c - v < pow2(g.table_size_log as nat)
                &&& v + c < pow2(g.table_size_log as nat)
            },
    ensures
        clean(g.clamp_lower(x).0, run),
{
    broadcast use lemma_ready_less, group_step_part, lemma_part_run, lemma_holds_run, group_clean;

    reveal(Graph::clamp_lower);
    lemma_extends_self(g);
    let n = num_vars(shape);
    let w = g.value(x);
    let flat = seq![pow2(n) as usize];
    let c = Graph::clamp_bound(w.sf);
    assert(0 <= c <= 14 * 0x1000_0000_0000_0000) by {
        lemma_ln2_below(f as nat);
        crate::math::lemma_pow2_mono(f as nat, 60);
        vstd::arithmetic::power2::lemma2_to64_rest();
    }
    let v = empty_value(shape, w.data_type, f, Role::Output);
    let bound = dense_value(shape, constant_table(shape, c), w.data_type, f, Role::Constant);
    lemma_need(g, g.known(x) && w.sf < 60 && num_vars(w.shape) < usize::BITS);
    let (g1, m) = g.mask(x, shape);
    lemma_mask_fits(g, x, shape, f);
    lemma_next(g, g, g1, 0, 4);
    let op = Op::ClampLower(c as u64);
    let g2 = g1.with_node(seq![m], op).0.with_value(v);
    lemma_node_fits(g1, seq![m], op, v);
    let y = g1.with_node(seq![m], op).1[0];
    lemma_next(g, g1, g2, 4, 1);
    let (g3, delta) = g2.minus(y, m);
    lemma_same_shape(shape);
    lemma_minus_fits(g2, y, m, shape, shape, f, f);
    lemma_next(g, g2, g3, 5, 1);
    let (g4, delta_flat) = g3.change_shape(delta[0], flat);
    lemma_change_shape_fits(g3, delta[0], flat);
    lemma_next(g, g3, g4, 6, 1);
    let g5 = g4.nonneg(delta_flat);
    lemma_nonneg_fits(g4, delta_flat);
    lemma_next(g, g4, g5, 7, 1);
    let (g6, c_edge) = g5.param(bound);
    lemma_param_fits(g5, bound);
    lemma_next(g, g5, g6, 8, 1);
    let (g7, u) = g6.plus(y, c_edge);
    lemma_plus_fits(g6, y, c_edge, shape, shape, f, f);
    lemma_next(g, g6, g7, 9, 1);
    let (g8, u_flat) = g7.change_shape(u[0], flat);
    lemma_change_shape_fits(g7, u[0], flat);
    lemma_next(g, g7, g8, 10, 1);
    let g9 = g8.nonneg(u_flat);
    lemma_nonneg_fits(g8, u_flat);
    lemma_next(g, g8, g9, 11, 1);
    let (g10, z) = g9.einsum("a,a->a"@, seq![delta_flat, u_flat], false);
    lemma_a_a_a(flat[0]);
    lemma_binary_fits(g9, "a,a->a"@, delta_flat, u_flat, flat, flat, f, f, false);
    lemma_next(g, g9, g10, 12, 3);
    let g11 = g10.assert_zero(z[0]);
    assert(run.computes(g10) && run.computes(g9) && run.computes(g8) && run.computes(g7));
    assert(run.computes(g6) && run.computes(g5) && run.computes(g4) && run.computes(g3));
    assert(run.computes(g2));
    lemma_node_run(g1, m, op, v, run);
    assert(run.computes(g1));
    lemma_mask_run(g, x, shape, f, run);
    assert(run.on(y) == g1.with_node(seq![m], op).1.map_values(|e: usize| run.on(e))[0]);
    lemma_mask_clean(g, x, shape, run);
    assert(clean(g2, run)) by {
        reveal(ready);
        lemma_clean_step(g1, g2, run);
    }
    lemma_minus_run(g2, y, m, run);
    lemma_change_shape_run(g3, delta[0], flat, run);
    lemma_constant_run(g5, bound, shape, c, run);
    lemma_plus_run(g6, y, c_edge, run);
    lemma_change_shape_run(g7, u[0], flat, run);
    let product = lemma_binary_run(
        g9,
        "a,a->a"@,
        delta_flat,
        u_flat,
        flat,
        flat,
        f,
        f,
        false,
        run,
    );
    let bits = g.table_size_log;
    assert(g4.table_size_log == bits && g8.table_size_log == bits) by {
        reveal(crate::dag::fits::extends);
    }
    vstd::arithmetic::power2::lemma_pow2_pos(bits as nat);
    lemma_flat_vars(n);
    assert(run.on(delta_flat).table.len() == pow2(n) && run.on(u_flat).table.len() == pow2(n));
    assert(product.table.len() == pow2(n));
    assert forall|p: int| 0 <= p < pow2(n) implies {
        &&& 0 <= #[trigger] run.on(delta_flat).table[p] < pow2(bits as nat)
        &&& 0 <= run.on(u_flat).table[p] < pow2(bits as nat)
        &&& run.on(delta_flat).table[p] == 0 || run.on(u_flat).table[p] == 0
    } by {
        lemma_same_combined(run.on(y), run.on(m), run.on(delta[0]), true, p);
        lemma_same_combined(run.on(y), run.on(c_edge), run.on(u[0]), false, p);
        let value = run.on(m).table[p];
        assert(run.on(y).table[p] == at_least(value, c));
        if inside(shape, p) {
            assert(run.on(x).table[p] == value);
        }
    }
    lemma_nonneg_clean(g4, delta_flat, run);
    assert(run.in_range(u_flat, bits)) by {
        assert forall|p: int| 0 <= p < run.on(u_flat).table.len() implies 0 <= #[trigger] run.on(
            u_flat,
        ).table[p] < pow2(bits as nat) by {
            assert(run.on(delta_flat).table[p] >= 0);
        }
    }
    lemma_nonneg_clean(g8, u_flat, run);
    assert forall|p: int| 0 <= p < run.on(z[0]).table.len() implies #[trigger] run.on(
        z[0],
    ).table[p] == 0 by {
        lemma_a_a_a_sum(run.on(delta_flat), run.on(u_flat), product, n, p);
        let (a, b) = (run.on(delta_flat).table[p], run.on(u_flat).table[p]);
        assert(a == 0 || b == 0);
        assert(a * b == 0) by (nonlinear_arith)
            requires
                a == 0 || b == 0,
        ;
    }
    lemma_assert_zero_clean(g10, z[0], run);
}

/// A mask is no check.
pub proof fn lemma_mask_clean(g: Graph, a: usize, shape: Seq<usize>, run: Run)
    requires
        clean(g, run),
        ready(g, 4),
    ensures
        clean(g.mask(a, shape).0, run),
{
    reveal(Graph::mask);
    reveal(ready);
    let h = g.need(shape.len() <= 159 && num_vars(shape) < usize::BITS);
    let value = dense_value(
        shape,
        constant_table(shape, 1),
        crate::witness::DataType::Float,
        0,
        Role::Constant,
    );
    let (g1, e) = h.param(value);
    lemma_clean_same(g, g1, run);
    let s = letters_of(shape.len());
    let equation = s + ","@ + s + "->"@ + s;
    reveal(Graph::einsum);
    lemma_clean_step(g1, g1.einsum(equation, seq![a, e], false).0, run);
}

/// The check of the chosen tokens passes where all margins, also those to the entries outside the
/// shape, fit the table.
pub proof fn lemma_argmax_check_clean(
    g: Graph,
    logits: usize,
    s: usize,
    v: usize,
    ids: Seq<usize>,
    f: usize,
    run: Run,
) -> (e: usize)
    requires
        ready(g, 7),
        holds(g, logits, seq![s, v], f),
        crate::dag::oneshot::selectable(s as nat, v as nat, ids),
        run.computes(g.argmax_check(logits, s, v, ids).0),
        clean(g, run),
    ensures
        are_margins(run.on(logits), ids, run.on(e), s, v),
        run.in_range(e, g.table_size_log) ==> clean(g.argmax_check(logits, s, v, ids).0, run),
{
    broadcast use lemma_ready_less, group_clean;

    let e = lemma_argmax_check_run(g, logits, s, v, ids, f, run);
    lemma_extends_self(g);
    lemma_need(g, crate::dag::oneshot::selectable(s as nat, v as nat, ids));
    let value = crate::dag::oneshot::one_hot_value(s, v, ids);
    let (g1, selector) = g.param(value);
    lemma_param_fits(g, value);
    lemma_next(g, g, g1, 0, 1);
    let (g2, selected) = g1.einsum("sv,sv->s"@, seq![logits, selector], false);
    crate::dag::readings::lemma_sv_sv_s(s, v);
    lemma_binary_fits(g1, "sv,sv->s"@, logits, selector, seq![s, v], seq![s, v], f, 0, false);
    lemma_next(g, g1, g2, 1, 3);
    let (g3, column) = g2.change_shape(selected[0], seq![s, 1]);
    lemma_change_shape_fits(g2, selected[0], seq![s, 1]);
    lemma_next(g, g2, g3, 4, 1);
    let (g4, diffs) = g3.minus(column, logits);
    crate::dag::fits::lemma_column(s, v);
    lemma_minus_fits(g3, column, logits, seq![s, 1], seq![s, v], f, f);
    lemma_next(g, g3, g4, 5, 1);
    assert(clean(g4, run));
    assert(g4.table_size_log == g.table_size_log) by {
        reveal(crate::dag::fits::extends);
    }
    assert(g4.nonneg(diffs[0]) == g.argmax_check(logits, s, v, ids).0);
    assert(e == diffs[0]) by {
        reveal(Graph::nonneg);
        assert(g4.nonneg(diffs[0]).nodes.last().inputs == seq![diffs[0]]);
        assert(seq![e][0] == seq![diffs[0]][0]);
    }
    if run.in_range(e, g.table_size_log) {
        lemma_nonneg_clean(g4, diffs[0], run);
    }
    e
}

} // verus!
