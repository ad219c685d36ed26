//! What a computation graph computes.
//!
//! A run gives every edge a tensor of integers. It is one of a graph where every node's outputs are
//! what its operation makes of its inputs, in integers: the integers stand for field elements as
//! long as they are small. Where an operation rounds a real number, the number is left open, as a
//! function of what it is a function of.
use crate::arith::{lemma_signed, ln2_at, ln2_single_at, nearest, signed};
use crate::field::modulus;
use crate::basicblock::exp::{step_count, K_BITS, TABLE_BITS};
use crate::basicblock::llama::{divided, reciprocal_of};
use crate::basicblock::range::table_position;
use crate::basicblock::scale::{rounding_rest, scale_up_place, scaled_down};
use crate::dag::entries::{addresses, contracted, interior, lemma_place, Tensor};
use crate::dag::equation::{equation_ok, equation_shape};
use crate::dag::fits::{holds, lemma_need, ready};
use crate::dag::graph::{content_table, Graph, NodeView, Op};
use crate::shape::constant_table;
use crate::witness::{dense_value, DataType, Role, Value};
use vstd::arithmetic::power2::pow2;
use vstd::prelude::*;

verus! {

/// A run of a graph.
pub ghost struct Run {
    /// The tensor on each edge. A selection is held as the place that it selects for every entry.
    pub tensor: spec_fn(usize) -> Tensor,
    /// The operations whose outputs nothing but checks in the graph binds to their inputs do what
    /// they are for.
    pub honest: bool,
    /// The rounded reciprocal of the root mean square of a row.
    pub inverse_rms: spec_fn(Seq<int>, usize) -> int,
    /// The rounded logarithm of the sum of the exponentials of the differences of the entries of a
    /// row to the largest.
    pub log_sum: spec_fn(Seq<int>, usize) -> int,
    /// What has to be added to an argument of the sigmoid for the exponential to give the sigmoid,
    /// rounded.
    pub sigmoid_shift: spec_fn(int, usize) -> int,
}

/// The largest entry of a row.
pub open spec fn maximum(row: Seq<int>) -> int
    decreases row.len(),
{
    if row.len() <= 1 {
        row[0]
    } else {
        let before = maximum(row.drop_last());
        if row.last() > before {
            row.last()
        } else {
            before
        }
    }
}

/// The largest entry of a row is one of its entries, and no entry is larger.
pub proof fn lemma_maximum(row: Seq<int>)
    requires
        row.len() >= 1,
    ensures
        exists|i: int| 0 <= i < row.len() && #[trigger] row[i] == maximum(row),
        forall|i: int| 0 <= i < row.len() ==> #[trigger] row[i] <= maximum(row),
    decreases row.len(),
{
    if row.len() > 1 {
        let before = row.drop_last();
        lemma_maximum(before);
        let k = choose|i: int| 0 <= i < before.len() && #[trigger] before[i] == maximum(before);
        assert(row[k] == before[k]);
        assert(row[row.len() - 1] == row.last());
        assert forall|i: int| 0 <= i < row.len() implies #[trigger] row[i] <= maximum(row) by {
            if i < before.len() {
                assert(row[i] == before[i]);
            }
        }
    } else {
        assert(row[0] == maximum(row));
    }
}

/// The first `n` entries along the last dimension, at the given coordinates.
pub open spec fn row_of(x: Tensor, c: Seq<int>, n: usize) -> Seq<int> {
    Seq::new(n as nat, |k: int| x.get(c.update(c.len() - 1, k)))
}

/// Coordinates of a tensor as coordinates of one that is broadcast to it.
pub open spec fn aligned(shape: Seq<usize>, c: Seq<int>) -> Seq<int> {
    Seq::new(
        shape.len(),
        |i: int|
            if shape[i] == 1 {
                0
            } else {
                c[i + (c.len() - shape.len())]
            },
    )
}

/// The sum or the difference of two tensors, each broadcast to the shape of the output.
pub open spec fn combined(a: Tensor, b: Tensor, out: Tensor, difference: bool) -> bool {
    &&& out.full()
    &&& forall|c: Seq<int>| #[trigger]
        addresses(out.shape, c) ==> out.get(c) == if difference {
            a.get(aligned(a.shape, c)) - b.get(aligned(b.shape, c))
        } else {
            a.get(aligned(a.shape, c)) + b.get(aligned(b.shape, c))
        }
}

/// What is left of an argument after whole steps of `ln2`.
pub open spec fn exponent_rest(v: int, ln2: int) -> int {
    v + step_count(nearest(-v, ln2)) * ln2
}

/// The place of the number of steps in a table with the given number of bits.
pub open spec fn exponent_place(v: int, ln2: int, table_bits: nat) -> int {
    table_position(nearest(-v, ln2), pow2(table_bits) as int)
}

/// An integer with another number of fractional bits.
pub open spec fn rescaled(v: int, input_sf: usize, output_sf: usize) -> int {
    if input_sf > output_sf {
        scaled_down(v, pow2((input_sf - output_sf) as nat) as int)
    } else {
        v * pow2((output_sf - input_sf) as nat)
    }
}

/// The larger of an integer and `-c`.
pub open spec fn at_least(v: int, c: int) -> int {
    if v < -c {
        -c
    } else {
        v
    }
}

impl Run {
    /// The tensor on an edge.
    pub open spec fn on(self, e: usize) -> Tensor {
        (self.tensor)(e)
    }

    /// The outputs are what an operation makes of its inputs.
    pub open spec fn performed(self, op: Op, ins: Seq<Tensor>, outs: Seq<Tensor>) -> bool {
        let x = ins[0];
        let y = outs[0];
        match op {
            Op::Add => combined(x, ins[1], y, false),
            Op::Sub => combined(x, ins[1], y, true),
            Op::Einsum(e) => contracted(e, ins, y),
            Op::ExpHelper(sf) => {
                let ln2 = ln2_at(sf as nat);
                &&& y.table == x.table.map_values(|v: int| exponent_rest(v, ln2))
                &&& outs[1].table == x.table.map_values(
                    |v: int| exponent_place(v, ln2, K_BITS as nat),
                )
            },
            Op::TwoPow => y.table == x.table.map_values(|k: int| pow2((15 - k) as nat) as int),
            Op::ChangeShape(_) => y.table == x.table,
            Op::ScaleDown(i, o) => {
                let factor = pow2((i - o) as nat) as int;
                &&& y.table == x.table.map_values(|v: int| scaled_down(v, factor))
                &&& outs[1].table == x.table.map_values(|v: int| rounding_rest(v, factor))
            },
            Op::ScaleUp(i, o) => {
                let k = (o - i) as nat;
                &&& y.table == x.table.map_values(|v: int| v * pow2(k))
                &&& outs[1].table == x.table.map_values(|v: int| scale_up_place(v, k))
            },
            Op::NonStructuredExp(sf) => {
                let ln2 = ln2_single_at(sf as nat);
                &&& y.table == x.table.map_values(|v: int| exponent_rest(v, ln2))
                &&& outs[1].table == x.table.map_values(
                    |v: int| exponent_place(v, ln2, TABLE_BITS as nat),
                )
            },
            Op::NonNegative(bits) => y.table == x.table.map_values(
                |v: int| table_position(v, pow2(bits as nat) as int),
            ),
            Op::Reducer => y.table == x.table,
            Op::Permute(moves, shape) => forall|i: int|
                0 <= i < moves.len() ==> y.get(
                    (#[trigger] moves[i]).1.map_values(|k: usize| k as int),
                ) == x.get(moves[i].0.map_values(|k: usize| k as int)),
            Op::RMSReciprocal => {
                &&& y.full()
                &&& self.honest ==> forall|c: Seq<int>| #[trigger]
                    interior(y.shape, c) ==> y.get(c) == (self.inverse_rms)(
                        row_of(x, c, x.shape.last()),
                        x.sf,
                    )
            },
            Op::Reciprocal => {
                &&& y.full()
                &&& self.honest ==> y.table == x.table.map_values(
                    |v: int| reciprocal_of(v, x.sf as nat),
                )
            },
            Op::DivConst(d) => {
                &&& y.full()
                &&& self.honest ==> y.table == x.table.map_values(|v: int| divided(v, d as int))
            },
            Op::SoftmaxConst(dim) => {
                &&& y.full()
                &&& self.honest ==> forall|c: Seq<int>| #[trigger]
                    interior(y.shape, c) ==> y.get(c) == -(maximum(row_of(x, c, dim)) + (
                    self.log_sum)(row_of(x, c, dim), x.sf))
            },
            Op::SigmoidConst => {
                &&& y.full()
                &&& self.honest ==> y.table == x.table.map_values(
                    |v: int| (self.sigmoid_shift)(v, x.sf),
                )
            },
            Op::ClampLower(c) => {
                &&& y.full()
                &&& self.honest ==> y.table == x.table.map_values(|v: int| at_least(v, c as int))
            },
            Op::ZeroCheck => y.table == seq![0int],
        }
    }

    /// What is known of an edge is so in the run.
    pub open spec fn agrees(self, e: usize, v: Value) -> bool {
        &&& self.on(e).shape == v.shape
        &&& self.on(e).sf == v.sf
        &&& v.data is Some ==> self.on(e).table == content_table(v.data->0).map_values(
            |x: int| signed(x),
        )
    }

    /// The outputs of a node are what its operation makes of its inputs.
    pub open spec fn obeys(self, node: NodeView) -> bool {
        self.performed(
            node.op,
            node.inputs.map_values(|e: usize| self.on(e)),
            node.outputs.map_values(|e: usize| self.on(e)),
        )
    }

    /// The run is one of a graph.
    #[verifier::opaque]
    pub open spec fn computes(self, g: Graph) -> bool {
        &&& forall|e: usize| #[trigger] g.known(e) ==> self.agrees(e, g.value(e))
        &&& forall|i: int| 0 <= i < g.nodes.len() ==> self.obeys(#[trigger] g.nodes[i])
    }

    /// The entries of a tensor lie in the range of a check.
    pub open spec fn in_range(self, e: usize, bits: usize) -> bool {
        forall|p: int|
            0 <= p < self.on(e).table.len() ==> 0 <= #[trigger] self.on(e).table[p] < pow2(
                bits as nat,
            )
    }

    /// The entries of a tensor are zero.
    pub open spec fn is_zero(self, e: usize) -> bool {
        forall|p: int|
            0 <= p < self.on(e).table.len() ==> #[trigger] self.on(e).table[p] == 0
    }

    /// The checks that a graph makes of its range-checked and zero-checked nodes pass.
    #[verifier::opaque]
    pub open spec fn passes(self, g: Graph) -> bool {
        &&& forall|i: int|
            0 <= i < g.range.len() && #[trigger] g.range[i] < g.nodes.len() ==> (
            g.nodes[g.range[i] as int].op matches Op::NonNegative(bits) ==> self.in_range(
                g.nodes[g.range[i] as int].inputs[0],
                bits,
            ))
        &&& forall|i: int|
            0 <= i < g.zero_check.len() && #[trigger] g.zero_check[i] < g.nodes.len()
                ==> self.is_zero(g.nodes[g.zero_check[i] as int].inputs[0])
    }
}

/// The second graph is the first with more in it.
#[verifier::opaque]
pub open spec fn part(g: Graph, h: Graph) -> bool {
    &&& g.nodes.is_prefix_of(h.nodes)
    &&& g.values.is_prefix_of(h.values)
    &&& g.range.is_prefix_of(h.range)
    &&& g.zero_check.is_prefix_of(h.zero_check)
}

/// A run of a graph is one of every part of it, and the checks of a part are among those of the
/// whole.
pub broadcast proof fn lemma_part_run(g: Graph, h: Graph, run: Run)
    requires
        #[trigger] part(g, h),
        #[trigger] run.computes(h),
    ensures
        run.computes(g),
        run.passes(h) ==> run.passes(g),
{
    reveal(part);
    reveal(Run::computes);
    reveal(Run::passes);
    assert forall|e: usize| #[trigger] g.known(e) implies run.agrees(e, g.value(e)) by {
        assert(g.values[e as int] == h.values[e as int]);
        assert(h.known(e));
    }
    assert forall|i: int| 0 <= i < g.nodes.len() implies run.obeys(#[trigger] g.nodes[i]) by {
        assert(g.nodes[i] == h.nodes[i]);
    }
    if run.passes(h) {
        assert forall|i: int|
            0 <= i < g.range.len() && #[trigger] g.range[i] < g.nodes.len() implies (
        g.nodes[g.range[i] as int].op matches Op::NonNegative(bits) ==> run.in_range(
            g.nodes[g.range[i] as int].inputs[0],
            bits,
        )) by {
            assert(g.range[i] == h.range[i]);
            assert(g.nodes[g.range[i] as int] == h.nodes[h.range[i] as int]);
        }
        assert forall|i: int|
            0 <= i < g.zero_check.len() && #[trigger] g.zero_check[i]
                < g.nodes.len() implies run.is_zero(
            g.nodes[g.zero_check[i] as int].inputs[0],
        ) by {
            assert(g.zero_check[i] == h.zero_check[i]);
            assert(g.nodes[g.zero_check[i] as int] == h.nodes[h.zero_check[i] as int]);
        }
    }
}

/// A part of a part is a part.
pub proof fn lemma_part_more(g: Graph, h: Graph, f: Graph)
    requires
        part(g, h),
        part(h, f),
    ensures
        part(g, f),
{
    reveal(part);
    lemma_prefix(g.nodes, h.nodes, f.nodes);
    lemma_prefix(g.values, h.values, f.values);
    lemma_prefix(g.range, h.range, f.range);
    lemma_prefix(g.zero_check, h.zero_check, f.zero_check);
}

proof fn lemma_prefix<T>(a: Seq<T>, b: Seq<T>, c: Seq<T>)
    requires
        a.is_prefix_of(b),
        b.is_prefix_of(c),
    ensures
        a.is_prefix_of(c),
{
    assert(a =~= c.take(a.len() as int)) by {
        assert forall|i: int| 0 <= i < a.len() implies a[i] == c[i] by {
            assert(a[i] == b[i]);
        }
    }
}

/// The shape and the fractional bits that are known of an edge are those of the run.
pub broadcast proof fn lemma_holds_run(
    g: Graph,
    e: usize,
    shape: Seq<usize>,
    sf: usize,
    run: Run,
)
    requires
        #[trigger] holds(g, e, shape, sf),
        #[trigger] run.computes(g),
    ensures
        run.on(e).shape == shape,
        run.on(e).sf == sf,
{
    reveal(Run::computes);
    assert(run.agrees(e, g.value(e)));
}

/// The last node of a graph.
proof fn lemma_last_node(g: Graph, run: Run)
    requires
        run.computes(g),
        g.nodes.len() > 0,
    ensures
        run.obeys(g.nodes.last()),
{
    reveal(Run::computes);
}

pub broadcast proof fn lemma_param_part(g: Graph, v: Value)
    ensures
        part(g, (#[trigger] g.param(v)).0),
{
    reveal(part);
}

pub broadcast proof fn lemma_nonneg_part(g: Graph, a: usize)
    ensures
        part(g, #[trigger] g.nonneg(a)),
{
    reveal(part);
    reveal(Graph::nonneg);
}

pub broadcast proof fn lemma_assert_zero_part(g: Graph, a: usize)
    ensures
        part(g, #[trigger] g.assert_zero(a)),
{
    reveal(part);
    reveal(Graph::assert_zero);
}

pub broadcast proof fn lemma_change_shape_part(g: Graph, a: usize, shape: Seq<usize>)
    ensures
        part(g, (#[trigger] g.change_shape(a, shape)).0),
{
    reveal(part);
    reveal(Graph::change_shape);
}

pub broadcast proof fn lemma_scale_part(g: Graph, a: usize, i: usize, o: usize)
    ensures
        part(g, (#[trigger] g.scale(a, i, o)).0),
{
    reveal(part);
    reveal(Graph::scale);
}

pub broadcast proof fn lemma_einsum_part(g: Graph, e: Seq<char>, inputs: Seq<usize>, back: bool)
    ensures
        part(g, (#[trigger] g.einsum(e, inputs, back)).0),
{
    reveal(part);
    reveal(Graph::einsum);
    reveal(Graph::scale);
}

pub broadcast proof fn lemma_plus_part(g: Graph, a: usize, b: usize)
    ensures
        part(g, (#[trigger] g.plus(a, b)).0),
{
    reveal(part);
    reveal(Graph::plus);
}

pub broadcast proof fn lemma_minus_part(g: Graph, a: usize, b: usize)
    ensures
        part(g, (#[trigger] g.minus(a, b)).0),
{
    reveal(part);
    reveal(Graph::minus);
}

pub broadcast proof fn lemma_scalar_part(g: Graph, v: u64, sf: usize)
    ensures
        part(g, (#[trigger] g.scalar(v, sf)).0),
{
    reveal(part);
    reveal(Graph::scalar);
}

pub broadcast proof fn lemma_unit_part(g: Graph, sf: usize)
    ensures
        part(g, (#[trigger] g.unit(sf)).0),
{
    reveal(part);
    reveal(Graph::unit);
    reveal(Graph::scalar);
}

pub broadcast proof fn lemma_constant_flat_part(
    g: Graph,
    shape: Seq<usize>,
    flat: Seq<usize>,
    v: int,
)
    ensures
        part(g, (#[trigger] g.constant_flat(shape, flat, v)).0),
{
    reveal(part);
    reveal(Graph::constant_flat);
}

pub broadcast proof fn lemma_rms_reciprocal_part(g: Graph, x: usize)
    ensures
        part(g, (#[trigger] g.rms_reciprocal(x)).0),
{
    reveal(part);
    reveal(Graph::rms_reciprocal);
}

pub broadcast proof fn lemma_div_const_part(g: Graph, a: usize, c: usize)
    ensures
        part(g, (#[trigger] g.div_const(a, c)).0),
{
    reveal(part);
    reveal(Graph::div_const);
}

pub broadcast proof fn lemma_softmax_const_part(g: Graph, a: usize)
    ensures
        part(g, (#[trigger] g.softmax_const(a)).0),
{
    reveal(part);
    reveal(Graph::softmax_const);
}

pub broadcast proof fn lemma_sigmoid_const_part(g: Graph, a: usize)
    ensures
        part(g, (#[trigger] g.sigmoid_const(a)).0),
{
    reveal(part);
    reveal(Graph::sigmoid_const);
}

/// Every single step leaves what was there as it was.
pub broadcast group group_step_part {
    lemma_param_part,
    lemma_nonneg_part,
    lemma_assert_zero_part,
    lemma_change_shape_part,
    lemma_scale_part,
    lemma_einsum_part,
    lemma_plus_part,
    lemma_minus_part,
    lemma_scalar_part,
    lemma_unit_part,
    lemma_constant_flat_part,
    lemma_rms_reciprocal_part,
    lemma_div_const_part,
    lemma_softmax_const_part,
    lemma_sigmoid_const_part,
}

/// A constant holds its data.
pub proof fn lemma_param_run(g: Graph, v: Value, run: Run)
    requires
        ready(g, 1),
        run.computes(g.param(v).0),
    ensures
        run.agrees(g.param(v).1, v),
{
    reveal(ready);
    reveal(Run::computes);
    let (h, e) = g.param(v);
    assert(h.known(e) && h.value(e) == v);
}

/// A range check.
pub proof fn lemma_nonneg_run(g: Graph, a: usize, run: Run)
    requires
        ready(g, 1),
        run.passes(g.nonneg(a)),
    ensures
        run.in_range(a, g.table_size_log),
{
    reveal(ready);
    reveal(Graph::nonneg);
    reveal(Run::passes);
    let h = g.nonneg(a);
    let i = g.range.len() as int;
    assert(h.range[i] == g.nodes.len());
    assert(h.nodes[g.nodes.len() as int].op == Op::NonNegative(g.table_size_log));
    assert(h.range[i] < h.nodes.len());
}

/// A check for zero.
pub proof fn lemma_assert_zero_run(g: Graph, a: usize, run: Run)
    requires
        ready(g, 1),
        run.passes(g.assert_zero(a)),
    ensures
        run.is_zero(a),
{
    reveal(ready);
    reveal(Graph::assert_zero);
    reveal(Run::passes);
    let h = g.assert_zero(a);
    let i = g.zero_check.len() as int;
    assert(h.zero_check[i] == g.nodes.len());
    assert(h.zero_check[i] < h.nodes.len());
}

/// Another shape.
pub proof fn lemma_change_shape_run(g: Graph, a: usize, shape: Seq<usize>, run: Run)
    requires
        ready(g, 1),
        g.known(a),
        run.computes(g.change_shape(a, shape).0),
    ensures
        run.on(g.change_shape(a, shape).1) == run.on(a).reshaped(shape),
{
    reveal(ready);
    reveal(Graph::change_shape);
    let (h, e) = g.change_shape(a, shape);
    lemma_last_node(h, run);
    reveal(Run::computes);
    assert(h.known(e));
    assert(g.values[a as int] == h.values[a as int]);
    assert(h.known(a));
    assert(run.agrees(a, g.value(a)));
    assert(run.on(e) =~= run.on(a).reshaped(shape));
}

/// A tensor with another number of fractional bits.
pub open spec fn rescaled_tensor(x: Tensor, i: usize, o: usize) -> Tensor {
    Tensor { shape: x.shape, sf: o, table: x.table.map_values(|v: int| rescaled(v, i, o)) }
}

/// Another number of fractional bits.
pub proof fn lemma_scale_run(g: Graph, a: usize, i: usize, o: usize, run: Run)
    requires
        ready(g, 2),
        g.known(a),
        run.computes(g.scale(a, i, o).0),
    ensures
        run.on(g.scale(a, i, o).1[0]) == rescaled_tensor(run.on(a), i, o),
{
    reveal(ready);
    reveal(Graph::scale);
    let (h, e) = g.scale(a, i, o);
    lemma_last_node(h, run);
    reveal(Run::computes);
    assert(h.known(e[0]));
    assert(g.values[a as int] == h.values[a as int]);
    assert(h.known(a));
    assert(run.agrees(a, g.value(a)));
    assert(run.agrees(e[0], h.value(e[0])));
    assert(run.on(e[0]) =~= rescaled_tensor(run.on(a), i, o));
}

proof fn lemma_ready_counts(g: Graph, f: Graph)
    requires
        ready(g, 3),
        f.ok,
        f.values.len() == f.num_edges,
        f.num_edges == g.num_edges + 1,
        f.nodes.len() == g.nodes.len() + 1,
    ensures
        ready(f, 2),
{
    reveal(ready);
}

/// A sum of products, before and after it is scaled back.
pub proof fn lemma_einsum_run(
    g: Graph,
    e: Seq<char>,
    inputs: Seq<usize>,
    back: bool,
    run: Run,
) -> (m: Tensor)
    requires
        ready(g, 3),
        inputs.len() >= 1,
        g.all_known(inputs),
        equation_ok(e, g.shapes(inputs)),
        0 <= g.total_sf(inputs) <= usize::MAX,
        run.computes(g.einsum(e, inputs, back).0),
    ensures
        contracted(e, inputs.map_values(|a: usize| run.on(a)), m),
        m.shape == equation_shape(e, g.shapes(inputs)),
        m.sf == g.total_sf(inputs),
        run.on(g.einsum(e, inputs, back).1[0]) == if back {
            rescaled_tensor(m, m.sf, g.value(inputs[0]).sf)
        } else {
            m
        },
{
    reveal(ready);
    reveal(Graph::einsum);
    let (h, outs) = g.einsum(e, inputs, back);
    let sf = g.total_sf(inputs) as usize;
    let first = g.value(inputs[0]);
    let needed = g.need(
        inputs.len() >= 1 && g.all_known(inputs) && equation_ok(e, g.shapes(inputs)) && g.total_sf(
            inputs,
        ) <= usize::MAX,
    );
    let (f, mid) = needed.with_node(inputs, Op::Einsum(e));
    let f = f.with_value(
        crate::witness::empty_value(
            equation_shape(e, g.shapes(inputs)),
            first.data_type,
            sf,
            crate::witness::Role::Output,
        ),
    );
    if back {
        lemma_scale_part(f, mid[0], sf, first.sf);
        lemma_part_run(f, h, run);
        assert(f.known(mid[0]));
        lemma_ready_counts(g, f);
        lemma_scale_run(f, mid[0], sf, first.sf, run);
    }
    lemma_last_node(f, run);
    reveal(Run::computes);
    assert(f.known(mid[0]));
    assert(run.agrees(mid[0], f.value(mid[0])));
    let node = f.nodes.last();
    assert(node.outputs.map_values(|a: usize| run.on(a))[0] == run.on(mid[0]));
    run.on(mid[0])
}

/// A sum of the entries of one tensor.
pub proof fn lemma_unary_run(
    g: Graph,
    e: Seq<char>,
    a: usize,
    s: Seq<usize>,
    f: usize,
    run: Run,
)
    requires
        ready(g, 3),
        holds(g, a, s, f),
        equation_ok(e, seq![s]),
        run.computes(g.einsum(e, seq![a], false).0),
    ensures
        contracted(e, seq![run.on(a)], run.on(g.einsum(e, seq![a], false).1[0])),
        run.on(g.einsum(e, seq![a], false).1[0]).shape == equation_shape(e, seq![s]),
        run.on(g.einsum(e, seq![a], false).1[0]).sf == f,
{
    let inputs = seq![a];
    assert(g.shapes(inputs) =~= seq![s]);
    assert(inputs.drop_last() =~= seq![]);
    reveal_with_fuel(Graph::total_sf, 2);
    let m = lemma_einsum_run(g, e, inputs, false, run);
    assert(inputs.map_values(|a: usize| run.on(a)) =~= seq![run.on(a)]);
}

/// A sum of products of the entries of two tensors: the output is that of the equation, scaled back
/// to the fractional bits of the first tensor if `back` is set.
pub proof fn lemma_binary_run(
    g: Graph,
    e: Seq<char>,
    a: usize,
    b: usize,
    s: Seq<usize>,
    t: Seq<usize>,
    f: usize,
    d: usize,
    back: bool,
    run: Run,
) -> (m: Tensor)
    requires
        ready(g, 3),
        holds(g, a, s, f),
        holds(g, b, t, d),
        equation_ok(e, seq![s, t]),
        f + d <= usize::MAX,
        run.computes(g.einsum(e, seq![a, b], back).0),
    ensures
        contracted(e, seq![run.on(a), run.on(b)], m),
        m.shape == equation_shape(e, seq![s, t]),
        m.sf == f + d,
        run.on(g.einsum(e, seq![a, b], back).1[0]) == if back {
            rescaled_tensor(m, (f + d) as usize, f)
        } else {
            m
        },
{
    let inputs = seq![a, b];
    assert(g.shapes(inputs) =~= seq![s, t]);
    assert(inputs.drop_last() =~= seq![a]);
    assert(seq![a].drop_last() =~= seq![]);
    reveal_with_fuel(Graph::total_sf, 3);
    let m = lemma_einsum_run(g, e, inputs, back, run);
    assert(inputs.map_values(|a: usize| run.on(a)) =~= seq![run.on(a), run.on(b)]);
    m
}

/// A sum.
pub proof fn lemma_plus_run(g: Graph, a: usize, b: usize, run: Run)
    requires
        ready(g, 1),
        run.computes(g.plus(a, b).0),
    ensures
        combined(run.on(a), run.on(b), run.on(g.plus(a, b).1[0]), false),
{
    reveal(ready);
    reveal(Graph::plus);
    let (h, e) = g.plus(a, b);
    lemma_last_node(h, run);
    let node = h.nodes.last();
    assert(node.inputs.map_values(|e: usize| run.on(e)) =~= seq![run.on(a), run.on(b)]);
    assert(node.outputs.map_values(|e: usize| run.on(e))[0] == run.on(e[0]));
}

/// A difference.
pub proof fn lemma_minus_run(g: Graph, a: usize, b: usize, run: Run)
    requires
        ready(g, 1),
        run.computes(g.minus(a, b).0),
    ensures
        combined(run.on(a), run.on(b), run.on(g.minus(a, b).1[0]), true),
{
    reveal(ready);
    reveal(Graph::minus);
    let (h, e) = g.minus(a, b);
    lemma_last_node(h, run);
    let node = h.nodes.last();
    assert(node.inputs.map_values(|e: usize| run.on(e)) =~= seq![run.on(a), run.on(b)]);
    assert(node.outputs.map_values(|e: usize| run.on(e))[0] == run.on(e[0]));
}

/// A node with one input and the values of its outputs.
pub proof fn lemma_node_run(g: Graph, a: usize, op: Op, v: Value, run: Run)
    requires
        run.computes(g.with_node(seq![a], op).0.with_value(v)),
    ensures
        part(g, g.with_node(seq![a], op).0.with_value(v)),
        run.performed(
            op,
            seq![run.on(a)],
            g.with_node(seq![a], op).1.map_values(|e: usize| run.on(e)),
        ),
{
    reveal(part);
    let h = g.with_node(seq![a], op).0.with_value(v);
    lemma_last_node(h, run);
    assert(h.nodes.last().inputs.map_values(|e: usize| run.on(e)) =~= seq![run.on(a)]);
}

/// A constant of one entry.
pub proof fn lemma_scalar_run(g: Graph, v: u64, sf: usize, run: Run)
    requires
        ready(g, 1),
        run.computes(g.scalar(v, sf).0),
    ensures
        run.on(g.scalar(v, sf).1) == (Tensor { shape: seq![1usize], sf, table: seq![v as int] }),
{
    reveal(Graph::scalar);
    let value = dense_value(seq![1usize], seq![v as int], DataType::Float, sf, Role::Constant);
    lemma_param_run(g, value, run);
    lemma_signed_small(v as int);
    assert(run.on(g.scalar(v, sf).1).table =~= seq![v as int]);
}

/// A small number as a field element.
pub proof fn lemma_signed_small(v: int)
    requires
        0 <= v < 0x8000_0000_0000_0000_0000_0000_0000_0000,
    ensures
        signed(v) == v,
{
    lemma_signed(v);
    crate::field::lemma_modulus_bounds();
    vstd::arithmetic::div_mod::lemma_small_mod(v as nat, modulus() as nat);
}

/// A constant inside a shape.
pub proof fn lemma_constant_run(g: Graph, value: Value, shape: Seq<usize>, v: int, run: Run)
    requires
        ready(g, 1),
        run.computes(g.param(value).0),
        value.data is Some,
        content_table(value.data->0) == constant_table(shape, v),
        0 <= v < 0x8000_0000_0000_0000_0000_0000_0000_0000,
    ensures
        run.on(g.param(value).1).shape == value.shape,
        run.on(g.param(value).1).sf == value.sf,
        run.on(g.param(value).1).table == constant_table(shape, v),
{
    lemma_param_run(g, value, run);
    lemma_signed_small(v);
    lemma_signed_small(0);
    assert(run.on(g.param(value).1).table =~= constant_table(shape, v));
}

/// A constant inside a shape, under a flat shape.
pub proof fn lemma_constant_flat_run(
    g: Graph,
    shape: Seq<usize>,
    flat: Seq<usize>,
    v: int,
    run: Run,
)
    requires
        ready(g, 1),
        run.computes(g.constant_flat(shape, flat, v).0),
        0 <= v < 0x8000_0000_0000_0000_0000_0000_0000_0000,
    ensures
        run.on(g.constant_flat(shape, flat, v).1) == (Tensor {
            shape: flat,
            sf: 15,
            table: constant_table(shape, v),
        }),
{
    reveal(Graph::constant_flat);
    let value = dense_value(flat, constant_table(shape, v), DataType::Float, 15, Role::Constant);
    lemma_constant_run(g, value, shape, v, run);
}

/// A node with one input and two outputs, after their values.
pub proof fn lemma_pair_run(g: Graph, a: usize, op: Op, v: Value, w: Value, run: Run)
    requires
        run.computes(g.with_value(v).with_value(w).with_range().with_node(seq![a], op).0),
    ensures
        part(g, g.with_value(v).with_value(w).with_range().with_node(seq![a], op).0),
        run.performed(
            op,
            seq![run.on(a)],
            g.with_value(v).with_value(w).with_range().with_node(seq![a], op).1.map_values(
                |e: usize| run.on(e),
            ),
        ),
{
    reveal(part);
    let h = g.with_value(v).with_value(w).with_range().with_node(seq![a], op).0;
    lemma_last_node(h, run);
    assert(h.nodes.last().inputs.map_values(|e: usize| run.on(e)) =~= seq![run.on(a)]);
}

/// Powers of two.
pub proof fn lemma_two_pow_run(g: Graph, a: usize, v: Value, run: Run)
    requires
        run.computes(g.with_two_pow().with_node(seq![a], Op::TwoPow).0.with_value(v)),
    ensures
        part(g, g.with_two_pow().with_node(seq![a], Op::TwoPow).0.with_value(v)),
        run.on(g.with_two_pow().with_node(seq![a], Op::TwoPow).1[0]).table == run.on(
            a,
        ).table.map_values(|k: int| pow2((15 - k) as nat) as int),
{
    reveal(part);
    let h = g.with_two_pow().with_node(seq![a], Op::TwoPow).0.with_value(v);
    lemma_last_node(h, run);
    assert(h.nodes.last().inputs.map_values(|e: usize| run.on(e)) =~= seq![run.on(a)]);
    assert(h.nodes.last().outputs.map_values(|e: usize| run.on(e))[0] == run.on(
        h.nodes.last().outputs[0],
    ));
}

/// The shifts of the sigmoid.
pub proof fn lemma_sigmoid_const_run(g: Graph, a: usize, run: Run)
    requires
        run.computes(g.sigmoid_const(a).0),
    ensures
        run.on(g.sigmoid_const(a).1[0]).full(),
        run.honest ==> run.on(g.sigmoid_const(a).1[0]).table == run.on(a).table.map_values(
            |v: int| (run.sigmoid_shift)(v, run.on(a).sf),
        ),
{
    reveal(Graph::sigmoid_const);
    let (h, e) = g.sigmoid_const(a);
    lemma_last_node(h, run);
    assert(h.nodes.last().inputs.map_values(|e: usize| run.on(e)) =~= seq![run.on(a)]);
    assert(h.nodes.last().outputs.map_values(|e: usize| run.on(e))[0] == run.on(e[0]));
}

/// Quotients.
pub proof fn lemma_div_const_run(g: Graph, a: usize, n: usize, run: Run)
    requires
        run.computes(g.div_const(a, n).0),
    ensures
        run.on(g.div_const(a, n).1[0]).full(),
        run.honest ==> run.on(g.div_const(a, n).1[0]).table == run.on(a).table.map_values(
            |v: int| divided(v, n as int),
        ),
{
    reveal(Graph::div_const);
    let (h, e) = g.div_const(a, n);
    lemma_last_node(h, run);
    assert(h.nodes.last().inputs.map_values(|e: usize| run.on(e)) =~= seq![run.on(a)]);
    assert(h.nodes.last().outputs.map_values(|e: usize| run.on(e))[0] == run.on(e[0]));
}

/// Reciprocals of root mean squares.
pub proof fn lemma_rms_reciprocal_run(g: Graph, a: usize, run: Run)
    requires
        run.computes(g.rms_reciprocal(a).0),
    ensures
        run.on(g.rms_reciprocal(a).1[0]).full(),
        run.honest ==> forall|c: Seq<int>| #[trigger]
            interior(run.on(g.rms_reciprocal(a).1[0]).shape, c) ==> run.on(
                g.rms_reciprocal(a).1[0],
            ).get(c) == (run.inverse_rms)(
                row_of(run.on(a), c, run.on(a).shape.last()),
                run.on(a).sf,
            ),
{
    reveal(Graph::rms_reciprocal);
    let (h, e) = g.rms_reciprocal(a);
    lemma_last_node(h, run);
    assert(h.nodes.last().inputs.map_values(|e: usize| run.on(e)) =~= seq![run.on(a)]);
    assert(h.nodes.last().outputs.map_values(|e: usize| run.on(e))[0] == run.on(e[0]));
}

/// The shifts of the softmax.
pub proof fn lemma_softmax_const_run(g: Graph, a: usize, run: Run)
    requires
        run.computes(g.softmax_const(a).0),
    ensures
        run.on(g.softmax_const(a).1[0]).full(),
        run.honest ==> forall|c: Seq<int>| #[trigger]
            interior(run.on(g.softmax_const(a).1[0]).shape, c) ==> run.on(
                g.softmax_const(a).1[0],
            ).get(c) == -(maximum(row_of(run.on(a), c, g.value(a).shape.last())) + (run.log_sum)(
                row_of(run.on(a), c, g.value(a).shape.last()),
                run.on(a).sf,
            )),
{
    reveal(Graph::softmax_const);
    let (h, e) = g.softmax_const(a);
    lemma_last_node(h, run);
    assert(h.nodes.last().inputs.map_values(|e: usize| run.on(e)) =~= seq![run.on(a)]);
    assert(h.nodes.last().outputs.map_values(|e: usize| run.on(e))[0] == run.on(e[0]));
}

/// An entry of a tensor with another number of fractional bits.
pub proof fn lemma_rescaled_get(m: Tensor, i: usize, o: usize, c: Seq<int>)
    requires
        m.full(),
        addresses(m.shape, c),
    ensures
        rescaled_tensor(m, i, o).full(),
        rescaled_tensor(m, i, o).get(c) == rescaled(m.get(c), i, o),
{
    lemma_place(m.shape, c);
}

/// One.
pub proof fn lemma_unit_run(g: Graph, sf: usize, run: Run)
    requires
        ready(g, 1),
        g.sf_log < 64,
        run.computes(g.unit(sf).0),
    ensures
        run.on(g.unit(sf).1) == (Tensor {
            shape: seq![1usize],
            sf,
            table: seq![pow2(g.sf_log as nat) as int],
        }),
{
    reveal(Graph::unit);
    lemma_need(g, g.sf_log < 64);
    lemma_scalar_run(g, pow2(g.sf_log as nat) as u64, sf, run);
    crate::math::lemma_pow2_mono(g.sf_log as nat, 63);
    vstd::arithmetic::power2::lemma2_to64_rest();
}

/// A node with one input after the value of its output.
pub proof fn lemma_value_node_run(g: Graph, a: usize, op: Op, v: Value, run: Run)
    requires
        run.computes(g.with_value(v).with_node(seq![a], op).0),
    ensures
        part(g, g.with_value(v).with_node(seq![a], op).0),
        run.performed(
            op,
            seq![run.on(a)],
            g.with_value(v).with_node(seq![a], op).1.map_values(|e: usize| run.on(e)),
        ),
{
    reveal(part);
    let h = g.with_value(v).with_node(seq![a], op).0;
    lemma_last_node(h, run);
    assert(h.nodes.last().inputs.map_values(|e: usize| run.on(e)) =~= seq![run.on(a)]);
}

} // verus!
