//! What the projections of a graph compute.
use crate::arith::num_vars;
use crate::dag::entries::{addresses, interior, lemma_interior, lemma_place, padded, place, Tensor};
use crate::dag::exponential::{lemma_rescaled, lemma_sigmoid_run, sigmoid_value};
use crate::dag::fits::{
    holds, lemma_binary_fits, lemma_extends_self, lemma_need, lemma_next, lemma_param_fits,
    lemma_ready_less, lemma_sigmoid_fits, ready,
};
use crate::dag::graph::Graph;
use crate::dag::readings::{lemma_bsi_bsi_bsi, lemma_bsi_ij_bsj};
use crate::dag::run::{
    group_step_part, lemma_binary_run, lemma_constant_run, lemma_holds_run, lemma_part_more,
    lemma_part_run, lemma_rescaled_get, part, rescaled, Run,
};
use crate::dag::sums::{lemma_bsi_bsi_bsi_sum, lemma_bsi_ij_bsj_sum, lemma_padded_one};
use crate::math::{lemma_sum_ext, lemma_sum_split, lemma_sum_zero, sum_to};
use crate::shape::{constant_table, inside};
use crate::witness::{dense_value, DataType, Role};
use vstd::prelude::*;

verus! {

/// The product of a number with another one, with the fractional bits of the first.
pub open spec fn times(a: int, sf: usize, b: int, by: usize) -> int {
    rescaled(a * b, (sf + by) as usize, sf)
}

/// An entry of the product of a tensor with a matrix of weights: `sum_k x[i, k] * w[k, j]`.
pub open spec fn linear(x: Tensor, w: Tensor, i: int, j: int, n: usize) -> int {
    rescaled(
        sum_to(|k: int| x.get(at3(0, i, k)) * w.get(at2(k, j)), padded(n)),
        (x.sf + w.sf) as usize,
        x.sf,
    )
}

/// The coordinates of an entry of a matrix.
pub open spec fn at2(i: int, j: int) -> Seq<int> {
    seq![i, j]
}

/// The coordinates of an entry of a tensor of three dimensions.
pub open spec fn at3(i: int, j: int, k: int) -> Seq<int> {
    seq![i, j, k]
}

/// The output is the product of a tensor with a matrix of weights.
pub open spec fn is_linear(
    x: Tensor,
    w: Tensor,
    out: Tensor,
    s: usize,
    n: usize,
    m: usize,
) -> bool {
    &&& out.full()
    &&& forall|i: int, j: int|
        0 <= i < padded(s) && 0 <= j < padded(m) ==> #[trigger] out.get(at3(0, i, j)) == linear(
            x,
            w,
            i,
            j,
            n,
        )
}

/// The output holds the products of the entries of two tensors, scaled back if `back` is set.
pub open spec fn is_product(
    x: Tensor,
    y: Tensor,
    out: Tensor,
    s: usize,
    m: usize,
    back: bool,
) -> bool {
    &&& out.full()
    &&& forall|i: int, j: int|
        0 <= i < padded(s) && 0 <= j < padded(m) ==> #[trigger] out.get(at3(0, i, j)) == if back {
            times(x.get(at3(0, i, j)), x.sf, y.get(at3(0, i, j)), y.sf)
        } else {
            x.get(at3(0, i, j)) * y.get(at3(0, i, j))
        }
}

/// Coordinates in a shape of three dimensions.
pub proof fn lemma_three(a: usize, b: usize, c: usize, i: int, j: int, k: int)
    requires
        0 <= i < padded(a),
        0 <= j < padded(b),
        0 <= k < padded(c),
    ensures
        addresses(seq![a, b, c], seq![i, j, k]),
        0 <= place(seq![a, b, c], seq![i, j, k]) < vstd::arithmetic::power2::pow2(
            num_vars(seq![a, b, c]),
        ),
        inside(seq![a, b, c], place(seq![a, b, c], seq![i, j, k])) == (i < a && j < b && k < c),
{
    let (s, p) = (seq![a, b, c], seq![i, j, k]);
    assert(addresses(s, p));
    lemma_place(s, p);
    lemma_interior(s, p);
    if i < a && j < b && k < c {
        assert(interior(s, p));
    }
    if interior(s, p) {
        assert(p[0] < s[0] && p[1] < s[1] && p[2] < s[2]);
    }
}

/// Where all later terms are zero a sum ends earlier.
pub proof fn lemma_sum_ends(f: spec_fn(int) -> int, n: int, size: int)
    requires
        0 <= n <= size,
        forall|i: int| n <= i < size ==> #[trigger] f(i) == 0,
    ensures
        sum_to(f, size) == sum_to(f, n),
{
    lemma_sum_split(f, n, size - n);
    let rest = |i: int| f(n + i);
    lemma_sum_zero(rest, size - n);
}

/// The product with a matrix of weights.
pub proof fn lemma_linear_run(
    g: Graph,
    x: usize,
    w: usize,
    s: usize,
    n: usize,
    m: usize,
    f: usize,
    d: usize,
    run: Run,
)
    requires
        ready(g, 3),
        holds(g, x, seq![1, s, n], f),
        holds(g, w, seq![n, m], d),
        f + d <= usize::MAX,
        run.computes(g.einsum("bsi,ij->bsj"@, seq![x, w], true).0),
    ensures
        is_linear(
            run.on(x),
            run.on(w),
            run.on(g.einsum("bsi,ij->bsj"@, seq![x, w], true).1[0]),
            s,
            n,
            m,
        ),
{
    broadcast use lemma_ready_less, group_step_part, lemma_part_run, lemma_holds_run;

    let e = "bsi,ij->bsj"@;
    let (h, outs) = g.einsum(e, seq![x, w], true);
    assert(run.computes(g));
    lemma_bsi_ij_bsj(1, s, n, m);
    let t = lemma_binary_run(g, e, x, w, seq![1, s, n], seq![n, m], f, d, true, run);
    lemma_padded_one();
    lemma_dims(s, m);
    lemma_bsi_ij_bsj_sum(run.on(x), run.on(w), t, 1, s, n, m, 0, 0, 0);
    lemma_three(1, s, m, 0, 0, 0);
    lemma_rescaled_get(t, (f + d) as usize, f, seq![0, 0, 0]);
    assert forall|i: int, j: int|
        0 <= i < padded(s) && 0 <= j < padded(m) implies #[trigger] run.on(outs[0]).get(
        at3(0, i, j),
    ) == linear(run.on(x), run.on(w), i, j, n) by {
        lemma_bsi_ij_bsj_sum(run.on(x), run.on(w), t, 1, s, n, m, 0, i, j);
        lemma_three(1, s, m, 0, i, j);
        lemma_rescaled_get(t, (f + d) as usize, f, at3(0, i, j));
        lemma_sum_ext(
            |ci: int| run.on(x).get(seq![0, i, ci]) * run.on(w).get(seq![ci, j]),
            |k: int| run.on(x).get(at3(0, i, k)) * run.on(w).get(at2(k, j)),
            padded(n),
        );
    }
}

/// Padded dimensions are positive.
pub proof fn lemma_dims(a: usize, b: usize)
    ensures
        padded(a) > 0,
        padded(b) > 0,
        a <= padded(a),
        b <= padded(b),
{
    vstd::arithmetic::power2::lemma_pow2_pos(crate::arith::ceil_log(a as int));
    vstd::arithmetic::power2::lemma_pow2_pos(crate::arith::ceil_log(b as int));
    crate::arith::lemma_ceil_log(a as int);
    crate::arith::lemma_ceil_log(b as int);
}

/// The products of the entries of two tensors.
pub proof fn lemma_product_run(
    g: Graph,
    x: usize,
    y: usize,
    s: usize,
    m: usize,
    f: usize,
    d: usize,
    back: bool,
    run: Run,
)
    requires
        ready(g, 3),
        holds(g, x, seq![1, s, m], f),
        holds(g, y, seq![1, s, m], d),
        f + d <= usize::MAX,
        run.computes(g.einsum("bsi,bsi->bsi"@, seq![x, y], back).0),
    ensures
        is_product(
            run.on(x),
            run.on(y),
            run.on(g.einsum("bsi,bsi->bsi"@, seq![x, y], back).1[0]),
            s,
            m,
            back,
        ),
{
    broadcast use lemma_ready_less, group_step_part, lemma_part_run, lemma_holds_run;

    let e = "bsi,bsi->bsi"@;
    let (h, outs) = g.einsum(e, seq![x, y], back);
    assert(run.computes(g));
    let shape = seq![1, s, m];
    lemma_bsi_bsi_bsi(1, s, m);
    let t = lemma_binary_run(g, e, x, y, shape, shape, f, d, back, run);
    lemma_padded_one();
    lemma_dims(s, m);
    lemma_bsi_bsi_bsi_sum(run.on(x), run.on(y), t, 1, s, m, 0, 0, 0);
    lemma_three(1, s, m, 0, 0, 0);
    lemma_rescaled_get(t, (f + d) as usize, f, seq![0, 0, 0]);
    assert forall|i: int, j: int|
        0 <= i < padded(s) && 0 <= j < padded(m) implies #[trigger] run.on(outs[0]).get(
        at3(0, i, j),
    ) == if back {
        times(run.on(x).get(at3(0, i, j)), f, run.on(y).get(at3(0, i, j)), d)
    } else {
        run.on(x).get(at3(0, i, j)) * run.on(y).get(at3(0, i, j))
    } by {
        lemma_bsi_bsi_bsi_sum(run.on(x), run.on(y), t, 1, s, m, 0, i, j);
        lemma_three(1, s, m, 0, i, j);
        lemma_rescaled_get(t, (f + d) as usize, f, at3(0, i, j));
    }
}

/// `swish(h) = h * sigmoid(h)`.
pub open spec fn swish(run: Run, h: int, f: usize, sf: usize) -> int {
    times(h, f, sigmoid_value(run, h, f, sf), sf)
}

/// A gated entry: `swish((w_1 x)[i, j]) * (w_2 x)[i, j]`.
pub open spec fn gated_entry(
    run: Run,
    x: Tensor,
    w_1: Tensor,
    w_2: Tensor,
    i: int,
    j: int,
    n: usize,
    sf: usize,
) -> int {
    times(swish(run, linear(x, w_1, i, j, n), x.sf, sf), x.sf, linear(x, w_2, i, j, n), x.sf)
}

/// The output is a gated projection: its entry `(i, k)` is
/// `sum_j swish(sum_l x[i, l] w_1[l, j]) * (sum_l x[i, l] w_2[l, j]) * w_3[j, k]`, each product and
/// sum rounded to the fractional bits of the input.
pub open spec fn is_gated(
    run: Run,
    x: Tensor,
    w_1: Tensor,
    w_2: Tensor,
    w_3: Tensor,
    out: Tensor,
    s: usize,
    n: usize,
    m: usize,
    sf: usize,
) -> bool {
    &&& out.full()
    &&& forall|i: int, k: int|
        0 <= i < s && 0 <= k < padded(n) ==> #[trigger] out.get(at3(0, i, k)) == rescaled(
            sum_to(
                |j: int| gated_entry(run, x, w_1, w_2, i, j, n, sf) * w_3.get(at2(j, k)),
                m as int,
            ),
            (x.sf + w_3.sf) as usize,
            x.sf,
        )
}

/// The gated projection.
pub proof fn lemma_gated_mlp_run(
    g: Graph,
    x: usize,
    w_1: usize,
    w_2: usize,
    w_3: usize,
    s: usize,
    n: usize,
    m: usize,
    f: usize,
    d: usize,
    run: Run,
)
    requires
        ready(g, 61),
        holds(g, x, seq![1, s, n], f),
        holds(g, w_1, seq![n, m], d),
        holds(g, w_2, seq![n, m], d),
        holds(g, w_3, seq![m, n], d),
        num_vars(seq![1, s, m]) < usize::BITS,
        g.sf_log < 32,
        f < 60,
        d < 60,
        run.computes(g.gated_mlp(x, w_1, w_2, w_3).0),
        run.honest,
    ensures
        part(g, g.gated_mlp(x, w_1, w_2, w_3).0),
        is_gated(
            run,
            run.on(x),
            run.on(w_1),
            run.on(w_2),
            run.on(w_3),
            run.on(g.gated_mlp(x, w_1, w_2, w_3).1[0]),
            s,
            n,
            m,
            g.sf_log,
        ),
{
    broadcast use lemma_ready_less, group_step_part, lemma_part_run, lemma_holds_run;

    reveal(Graph::gated_mlp);
    lemma_extends_self(g);
    let shape = seq![1, s, m];
    let sf = g.sf_log;
    let (g1, h_1) = g.einsum("bsi,ij->bsj"@, seq![x, w_1], true);
    lemma_bsi_ij_bsj(1, s, n, m);
    lemma_binary_fits(g, "bsi,ij->bsj"@, x, w_1, seq![1, s, n], seq![n, m], f, d, true);
    lemma_next(g, g, g1, 0, 3);
    let (g2, sigmoid) = g1.sigmoid(h_1[0]);
    lemma_sigmoid_fits(g1, h_1[0], shape, f);
    lemma_next(g, g1, g2, 3, 46);
    let (g3, swished) = g2.einsum("bsi,bsi->bsi"@, seq![h_1[0], sigmoid[0]], true);
    lemma_bsi_bsi_bsi(1, s, m);
    lemma_binary_fits(g2, "bsi,bsi->bsi"@, h_1[0], sigmoid[0], shape, shape, f, sf, true);
    lemma_next(g, g2, g3, 49, 3);
    let (g4, h_2) = g3.einsum("bsi,ij->bsj"@, seq![x, w_2], true);
    lemma_binary_fits(g3, "bsi,ij->bsj"@, x, w_2, seq![1, s, n], seq![n, m], f, d, true);
    lemma_next(g, g3, g4, 52, 3);
    let (g5, product) = g4.einsum("bsi,bsi->bsi"@, seq![swished[0], h_2[0]], true);
    lemma_binary_fits(g4, "bsi,bsi->bsi"@, swished[0], h_2[0], shape, shape, f, f, true);
    lemma_next(g, g4, g5, 55, 3);
    let (g6, out) = g5.einsum("bsi,ij->bsj"@, seq![product[0], w_3], true);
    lemma_bsi_ij_bsj(1, s, m, n);
    assert(run.computes(g5) && run.computes(g4) && run.computes(g3) && run.computes(g2));
    lemma_sigmoid_run(g1, h_1[0], shape, f, run);
    assert(run.computes(g1));
    lemma_part_more(g, g1, g2);
    assert(part(g, g6)) by {
        lemma_part_more(g, g2, g3);
        lemma_part_more(g, g3, g4);
        lemma_part_more(g, g4, g5);
        lemma_part_more(g, g5, g6);
    }
    lemma_linear_run(g, x, w_1, s, n, m, f, d, run);
    lemma_product_run(g2, h_1[0], sigmoid[0], s, m, f, sf, true, run);
    lemma_linear_run(g3, x, w_2, s, n, m, f, d, run);
    lemma_product_run(g4, swished[0], h_2[0], s, m, f, f, true, run);
    lemma_linear_run(g5, product[0], w_3, s, m, n, f, d, run);
    lemma_padded_one();
    lemma_dims(s, m);
    assert forall|i: int, k: int| 0 <= i < s && 0 <= k < padded(n) implies #[trigger] run.on(
        out[0],
    ).get(at3(0, i, k)) == rescaled(
        sum_to(
            |j: int|
                gated_entry(run, run.on(x), run.on(w_1), run.on(w_2), i, j, n, sf) * run.on(
                    w_3,
                ).get(at2(j, k)),
            m as int,
        ),
        (f + d) as usize,
        f,
    ) by {
        let p = |j: int| run.on(product[0]).get(at3(0, i, j)) * run.on(w_3).get(at2(j, k));
        let q = |j: int|
            gated_entry(run, run.on(x), run.on(w_1), run.on(w_2), i, j, n, sf) * run.on(w_3).get(
                at2(j, k),
            );
        assert forall|j: int| 0 <= j < padded(m) implies #[trigger] p(j) == if j < m {
            q(j)
        } else {
            0
        } by {
            lemma_three(1, s, m, 0, i, j);
            let h = linear(run.on(x), run.on(w_1), i, j, n);
            assert(run.on(h_1[0]).get(at3(0, i, j)) == h);
            assert(run.on(h_2[0]).get(at3(0, i, j)) == linear(run.on(x), run.on(w_2), i, j, n));
            assert(run.on(swished[0]).get(at3(0, i, j)) == times(
                h,
                f,
                run.on(sigmoid[0]).get(at3(0, i, j)),
                sf,
            ));
            if j >= m {
                assert(h * 0 == 0);
                lemma_rescaled(0, (f + sf) as usize, f);
                let other = run.on(h_2[0]).get(at3(0, i, j));
                assert(0 * other == 0);
                lemma_rescaled(0, (f + f) as usize, f);
                assert(run.on(product[0]).get(at3(0, i, j)) == 0);
                assert(0 * run.on(w_3).get(at2(j, k)) == 0);
            }
        }
        lemma_sum_ends(p, m as int, padded(m));
        lemma_sum_ext(p, q, m as int);
    }
}

/// An entry of the activation: `h * sigmoid(slope * h)` for `h = (w_1 x)[i, j]`.
pub open spec fn gelu(run: Run, h: int, slope: u32, f: usize, sf: usize) -> int {
    times(h, f, sigmoid_value(run, times(h, f, slope as int, sf), f, sf), sf)
}

/// The output is a projection with an activation: its entry `(i, k)` is `sum_j gelu(sum_l x[i, l]
/// w_1[l, j]) * w_2[j, k]`, each product and sum rounded to the fractional bits of the input.
pub open spec fn is_activated(
    run: Run,
    x: Tensor,
    w_1: Tensor,
    w_2: Tensor,
    slope: u32,
    out: Tensor,
    s: usize,
    n: usize,
    m: usize,
    sf: usize,
) -> bool {
    &&& out.full()
    &&& forall|i: int, k: int|
        0 <= i < s && 0 <= k < padded(n) ==> #[trigger] out.get(at3(0, i, k)) == rescaled(
            sum_to(
                |j: int| gelu(run, linear(x, w_1, i, j, n), slope, x.sf, sf) * w_2.get(at2(j, k)),
                m as int,
            ),
            (x.sf + w_2.sf) as usize,
            x.sf,
        )
}

/// The projection with an activation.
pub proof fn lemma_gelu_mlp_run(
    g: Graph,
    x: usize,
    w_1: usize,
    w_2: usize,
    slope: u32,
    s: usize,
    n: usize,
    m: usize,
    f: usize,
    d: usize,
    run: Run,
)
    requires
        ready(g, 59),
        holds(g, x, seq![1, s, n], f),
        holds(g, w_1, seq![n, m], d),
        holds(g, w_2, seq![m, n], d),
        num_vars(seq![1, s, m]) < usize::BITS,
        g.sf_log < 32,
        f < 60,
        d < 60,
        run.computes(g.gelu_mlp(x, w_1, w_2, slope).0),
        run.honest,
    ensures
        part(g, g.gelu_mlp(x, w_1, w_2, slope).0),
        is_activated(
            run,
            run.on(x),
            run.on(w_1),
            run.on(w_2),
            slope,
            run.on(g.gelu_mlp(x, w_1, w_2, slope).1[0]),
            s,
            n,
            m,
            g.sf_log,
        ),
{
    broadcast use lemma_ready_less, group_step_part, lemma_part_run, lemma_holds_run;

    reveal(Graph::gelu_mlp);
    lemma_extends_self(g);
    let shape = seq![1, s, m];
    let sf = g.sf_log;
    let table = constant_table(shape, slope as int);
    let value = dense_value(shape, table, DataType::Float, sf, Role::Constant);
    let (g1, h_1) = g.einsum("bsi,ij->bsj"@, seq![x, w_1], true);
    lemma_bsi_ij_bsj(1, s, n, m);
    lemma_binary_fits(g, "bsi,ij->bsj"@, x, w_1, seq![1, s, n], seq![n, m], f, d, true);
    lemma_next(g, g, g1, 0, 3);
    let (g2, constant) = g1.param(value);
    lemma_need(g1, g1.known(h_1[0]) && num_vars(shape) < usize::BITS);
    lemma_param_fits(g1, value);
    lemma_next(g, g1, g2, 3, 1);
    let (g3, scaled) = g2.einsum("bsi,bsi->bsi"@, seq![h_1[0], constant], true);
    lemma_bsi_bsi_bsi(1, s, m);
    lemma_binary_fits(g2, "bsi,bsi->bsi"@, h_1[0], constant, shape, shape, f, sf, true);
    lemma_next(g, g2, g3, 4, 3);
    let (g4, sigmoid) = g3.sigmoid(scaled[0]);
    lemma_sigmoid_fits(g3, scaled[0], shape, f);
    lemma_next(g, g3, g4, 7, 46);
    let (g5, active) = g4.einsum("bsi,bsi->bsi"@, seq![h_1[0], sigmoid[0]], true);
    lemma_binary_fits(g4, "bsi,bsi->bsi"@, h_1[0], sigmoid[0], shape, shape, f, sf, true);
    lemma_next(g, g4, g5, 53, 3);
    let (g6, out) = g5.einsum("bsi,ij->bsj"@, seq![active[0], w_2], true);
    lemma_bsi_ij_bsj(1, s, m, n);
    assert(run.computes(g5) && run.computes(g4));
    lemma_sigmoid_run(g3, scaled[0], shape, f, run);
    assert(run.computes(g3) && run.computes(g2) && run.computes(g1));
    assert(part(g, g6)) by {
        lemma_part_more(g, g1, g2);
        lemma_part_more(g, g2, g3);
        lemma_part_more(g, g3, g4);
        lemma_part_more(g, g4, g5);
        lemma_part_more(g, g5, g6);
    }
    lemma_linear_run(g, x, w_1, s, n, m, f, d, run);
    lemma_constant_run(g1, value, shape, slope as int, run);
    lemma_product_run(g2, h_1[0], constant, s, m, f, sf, true, run);
    lemma_product_run(g4, h_1[0], sigmoid[0], s, m, f, sf, true, run);
    lemma_linear_run(g5, active[0], w_2, s, m, n, f, d, run);
    lemma_padded_one();
    lemma_dims(s, m);
    assert forall|i: int, k: int| 0 <= i < s && 0 <= k < padded(n) implies #[trigger] run.on(
        out[0],
    ).get(at3(0, i, k)) == rescaled(
        sum_to(
            |j: int|
                gelu(run, linear(run.on(x), run.on(w_1), i, j, n), slope, f, sf) * run.on(w_2).get(
                    at2(j, k),
                ),
            m as int,
        ),
        (f + d) as usize,
        f,
    ) by {
        let p = |j: int| run.on(active[0]).get(at3(0, i, j)) * run.on(w_2).get(at2(j, k));
        let q = |j: int|
            gelu(run, linear(run.on(x), run.on(w_1), i, j, n), slope, f, sf) * run.on(w_2).get(
                at2(j, k),
            );
        assert forall|j: int| 0 <= j < padded(m) implies #[trigger] p(j) == if j < m {
            q(j)
        } else {
            0
        } by {
            lemma_three(1, s, m, 0, i, j);
            let h = linear(run.on(x), run.on(w_1), i, j, n);
            assert(run.on(h_1[0]).get(at3(0, i, j)) == h);
            assert(run.on(active[0]).get(at3(0, i, j)) == times(
                h,
                f,
                run.on(sigmoid[0]).get(at3(0, i, j)),
                sf,
            ));
            if j >= m {
                assert(h * 0 == 0);
                lemma_rescaled(0, (f + sf) as usize, f);
                assert(0 * run.on(w_2).get(at2(j, k)) == 0);
            } else {
                assert(run.on(constant).get(at3(0, i, j)) == slope);
                assert(run.on(scaled[0]).get(at3(0, i, j)) == times(h, f, slope as int, sf));
            }
        }
        lemma_sum_ends(p, m as int, padded(m));
        lemma_sum_ext(p, q, m as int);
    }
}

} // verus!
