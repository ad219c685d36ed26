//! What the normalisations of a graph compute.
use crate::arith::num_vars;
use crate::basicblock::llama::{divided, last_dropped, reciprocal_of};
use crate::dag::checks::{
    clean, group_clean, lemma_checked_mean_clean, lemma_clean_step, lemma_mask_clean,
    lemma_within_clean,
};
use crate::dag::entries::{interior, lemma_places, padded, place, Tensor};
use crate::dag::exponential::{lemma_mask_run, lemma_rescaled};
use crate::dag::fits::{
    computed, extends, holds, lemma_binary_fits, lemma_change_shape_fits, lemma_checked_mean_fits,
    lemma_div_const_fits, lemma_extends_self, lemma_mask_fits, lemma_minus_fits, lemma_need,
    lemma_next, lemma_nonneg_fits, lemma_plus_fits, lemma_ready_less, lemma_rms_reciprocal_fits,
    lemma_row, lemma_same_shape, lemma_scalar_fits, lemma_single_entry, lemma_unary_fits,
    lemma_unit_fits, lemma_within_fits, ready,
};
use crate::dag::equation::letters_of;
use crate::dag::graph::{op_arity, Graph, Op};
use crate::dag::mlps::{at3, lemma_dims, lemma_product_run, lemma_sum_ends, lemma_three, times};
use crate::dag::readings::{
    lemma_bsi_bs, lemma_bsi_bs_bsi, lemma_bsi_bsi_bsi, lemma_bsi_i_bsi, lemma_entrywise,
};
use crate::dag::run::{
    aligned, group_step_part, lemma_binary_run, lemma_change_shape_run, lemma_div_const_run,
    lemma_holds_run, lemma_minus_run, lemma_nonneg_run, lemma_part_more, lemma_part_run,
    lemma_plus_run, lemma_rescaled_get, lemma_rms_reciprocal_run, lemma_scalar_run, lemma_unary_run,
    lemma_unit_run, lemma_value_node_run, part, rescaled, row_of, Run,
};
use crate::dag::sums::{
    lemma_bsi_bs_bsi_sum, lemma_bsi_bs_sum, lemma_bsi_i_bsi_sum, lemma_entrywise_sum,
    lemma_left_combined, lemma_padded_one, lemma_right_combined, lemma_same_combined,
};
use crate::math::{lemma_sum_ext, sum_to};
use crate::witness::{empty_value, Role, Value};
use vstd::arithmetic::power2::pow2;
use vstd::prelude::*;

verus! {

/// The checks of a tolerance: the entries are within it.
pub proof fn lemma_within_run(
    g: Graph,
    a: usize,
    t: usize,
    shape: Seq<usize>,
    f: usize,
    d: usize,
    run: Run,
)
    requires
        ready(g, 4),
        computed(g, a, shape, f),
        holds(g, t, seq![1usize], d),
        shape.len() >= 1,
        run.computes(g.within(a, t)),
    ensures
        part(g, g.within(a, t)),
        run.passes(g.within(a, t)) ==> forall|p: int|
            0 <= p < pow2(num_vars(shape)) ==> -run.on(t).table[0] <= #[trigger] run.on(a).table[p]
                <= run.on(t).table[0],
{
    broadcast use lemma_ready_less, group_step_part, lemma_part_run, lemma_holds_run;

    reveal(Graph::within);
    lemma_extends_self(g);
    let (g1, above) = g.plus(a, t);
    lemma_single_entry(shape);
    lemma_plus_fits(g, a, t, shape, seq![1usize], f, d);
    lemma_next(g, g, g1, 0, 1);
    let (g2, below) = g1.minus(t, a);
    lemma_minus_fits(g1, t, a, seq![1usize], shape, d, f);
    lemma_next(g, g1, g2, 1, 1);
    let g3 = g2.nonneg(above[0]);
    lemma_nonneg_fits(g2, above[0]);
    lemma_next(g, g2, g3, 2, 1);
    let g4 = g3.nonneg(below[0]);
    assert(run.computes(g3) && run.computes(g2) && run.computes(g1));
    lemma_part_more(g, g1, g2);
    lemma_part_more(g, g2, g3);
    lemma_part_more(g, g3, g4);
    lemma_plus_run(g, a, t, run);
    lemma_minus_run(g1, t, a, run);
    if run.passes(g4) {
        lemma_nonneg_run(g2, above[0], run);
        lemma_nonneg_run(g3, below[0], run);
        assert forall|p: int| 0 <= p < pow2(num_vars(shape)) implies -run.on(t).table[0]
            <= #[trigger] run.on(a).table[p] <= run.on(t).table[0] by {
            lemma_right_combined(run.on(a), run.on(t), run.on(above[0]), false, p);
            lemma_left_combined(run.on(t), run.on(a), run.on(below[0]), true, p);
            assert(run.on(above[0]).table[p] >= 0);
            assert(run.on(below[0]).table[p] >= 0);
        }
    }
}

/// A mean: what the division gives if it does what it is for, and within half a step of the exact
/// one if the checks pass.
pub open spec fn is_mean(run: Run, passes: bool, sum: int, mean: int, n: usize) -> bool {
    &&& run.honest ==> mean == divided(sum, n as int)
    &&& passes && n <= u32::MAX ==> -(n / 2) <= sum - mean * n <= n / 2
}

/// The means of some sums.
pub open spec fn are_means(
    run: Run,
    passes: bool,
    sums: Tensor,
    means: Tensor,
    s: usize,
    n: usize,
) -> bool {
    forall|i: int|
        0 <= i < padded(s) ==> is_mean(run, passes, sums.table[i], #[trigger] means.table[i], n)
}

/// A checked mean, row by row.
pub proof fn lemma_checked_mean_run(g: Graph, sum: usize, n: usize, s: usize, f: usize, run: Run)
    requires
        ready(g, 13),
        holds(g, sum, seq![1, s], f),
        run.on(sum).full(),
        run.computes(g.checked_mean(sum, n, seq![1, s, 1]).0),
    ensures
        part(g, g.checked_mean(sum, n, seq![1, s, 1]).0),
        run.on(g.checked_mean(sum, n, seq![1, s, 1]).1).table.len() == run.on(sum).table.len(),
        are_means(
            run,
            run.passes(g.checked_mean(sum, n, seq![1, s, 1]).0),
            run.on(sum),
            run.on(g.checked_mean(sum, n, seq![1, s, 1]).1),
            s,
            n,
        ),
{
    broadcast use lemma_ready_less, group_step_part, lemma_part_run, lemma_holds_run;

    reveal(Graph::checked_mean);
    lemma_extends_self(g);
    let shape = seq![1, s, 1];
    let (g1, quotient) = g.div_const(sum, n);
    lemma_div_const_fits(g, sum, n);
    lemma_next(g, g, g1, 0, 1);
    let (g2, m) = g1.change_shape(quotient[0], shape);
    lemma_change_shape_fits(g1, quotient[0], shape);
    lemma_next(g, g1, g2, 1, 1);
    let (g3, n_param) = g2.scalar(n as u32 as u64, 0);
    lemma_scalar_fits(g2, n as u32 as u64, 0);
    lemma_next(g, g2, g3, 2, 1);
    let (g4, tolerance) = g3.scalar((n / 2) as u32 as u64, g.sf_log);
    lemma_scalar_fits(g3, (n / 2) as u32 as u64, g.sf_log);
    lemma_next(g, g3, g4, 3, 1);
    let (g5, product) = g4.einsum("bsi,i->bsi"@, seq![m, n_param], false);
    lemma_bsi_i_bsi(1, s, 1);
    lemma_binary_fits(g4, "bsi,i->bsi"@, m, n_param, shape, seq![1usize], f, 0, false);
    lemma_next(g, g4, g5, 4, 3);
    let (g6, total) = g5.change_shape(sum, shape);
    lemma_change_shape_fits(g5, sum, shape);
    lemma_next(g, g5, g6, 7, 1);
    let (g7, difference) = g6.minus(total, product[0]);
    lemma_same_shape(shape);
    lemma_minus_fits(g6, total, product[0], shape, shape, f, f);
    lemma_next(g, g6, g7, 8, 1);
    let g8 = g7.within(difference[0], tolerance);
    lemma_within_run(g7, difference[0], tolerance, shape, f, g.sf_log, run);
    assert(run.computes(g7) && run.computes(g6) && run.computes(g5) && run.computes(g4));
    assert(run.computes(g3) && run.computes(g2) && run.computes(g1) && run.computes(g));
    assert(part(g, g8)) by {
        lemma_part_more(g, g1, g2);
        lemma_part_more(g, g2, g3);
        lemma_part_more(g, g3, g4);
        lemma_part_more(g, g4, g5);
        lemma_part_more(g, g5, g6);
        lemma_part_more(g, g6, g7);
        lemma_part_more(g, g7, g8);
    }
    lemma_div_const_run(g, sum, n, run);
    lemma_change_shape_run(g1, quotient[0], shape, run);
    lemma_scalar_run(g2, n as u32 as u64, 0, run);
    lemma_scalar_run(g3, (n / 2) as u32 as u64, g.sf_log, run);
    let t = lemma_binary_run(
        g4,
        "bsi,i->bsi"@,
        m,
        n_param,
        shape,
        seq![1usize],
        f,
        0,
        false,
        run,
    );
    lemma_change_shape_run(g5, sum, shape, run);
    lemma_minus_run(g6, total, product[0], run);
    lemma_padded_one();
    assert forall|i: int| 0 <= i < padded(s) implies is_mean(
        run,
        run.passes(g8),
        run.on(sum).table[i],
        #[trigger] run.on(m).table[i],
        n,
    ) by {
        lemma_column_place(s, i);
        lemma_bsi_i_bsi_sum(run.on(m), run.on(n_param), t, 1, s, 1, 0, i, 0);
        lemma_places(seq![1usize], seq![0int]);
        lemma_same_combined(run.on(total), run.on(product[0]), run.on(difference[0]), true, i);
        if run.passes(g8) && n <= u32::MAX {
            assert(run.on(difference[0]).table[i] == run.on(sum).table[i] - run.on(m).table[i] * n);
            assert(run.on(tolerance).table[0] == n / 2);
        }
    }
}

/// Where the entries of a column stand, and that they are as many as of one row less.
pub proof fn lemma_column_place(s: usize, i: int)
    requires
        0 <= i < padded(s),
    ensures
        place(seq![1, s, 1], seq![0, i, 0]) == i,
        place(seq![1, s], seq![0, i]) == i,
        pow2(num_vars(seq![1, s, 1])) == padded(s),
        pow2(num_vars(seq![1, s])) == padded(s),
{
    lemma_padded_one();
    lemma_places(seq![1, s, 1], seq![0, i, 0]);
    lemma_places(seq![1, s], seq![0, i]);
    reveal_with_fuel(num_vars, 4);
    let (a, b) = (seq![1, s, 1], seq![1, s]);
    assert(a.drop_last() =~= b);
    assert(b.drop_last() =~= seq![1usize]);
    assert(seq![1usize].drop_last() =~= seq![]);
    crate::math::lemma_pow2_small();
    assert(crate::arith::ceil_log(1) == 0);
}

/// The entries of a row.
pub open spec fn row(x: Tensor, i: int, n: usize) -> Seq<int> {
    Seq::new(n as nat, |k: int| x.get(at3(0, i, k)))
}

/// The sum of a row.
pub open spec fn row_sum(x: Tensor, i: int, n: usize) -> int {
    sum_to(|k: int| x.get(at3(0, i, k)), padded(n))
}

/// The sum of the squares of a row, each rounded.
pub open spec fn row_squares(x: Tensor, i: int, n: usize) -> int {
    sum_to(|k: int| times(x.get(at3(0, i, k)), x.sf, x.get(at3(0, i, k)), x.sf), padded(n))
}

/// The factor `r` of a row is the reciprocal of its root mean square if the operation does what it
/// is for, and `r^2` times the mean of the squares is one up to a tolerance if the checks pass.
pub open spec fn is_row_factor(
    run: Run,
    passes: bool,
    x: Tensor,
    i: int,
    n: usize,
    sf: usize,
    mean: int,
    r: int,
) -> bool {
    &&& is_mean(run, passes, row_squares(x, i, n), mean, n)
    &&& run.honest ==> r == (run.inverse_rms)(row(x, i, n), x.sf)
    &&& passes ==> -512 <= rescaled(mean * (r * r), (3 * x.sf) as usize, x.sf) - pow2(sf as nat)
        <= 512
}

/// The output is normalised: every row is scaled by its factor and the weights are applied.
pub open spec fn is_normalised(
    run: Run,
    passes: bool,
    x: Tensor,
    w: Tensor,
    out: Tensor,
    means: Seq<int>,
    factors: Seq<int>,
    s: usize,
    n: usize,
    sf: usize,
) -> bool {
    &&& out.full()
    &&& forall|i: int|
        0 <= i < s ==> is_row_factor(run, passes, x, i, n, sf, means[i], #[trigger] factors[i])
    &&& forall|i: int, k: int|
        0 <= i < s && 0 <= k < padded(n) ==> #[trigger] out.get(at3(0, i, k)) == times(
            times(x.get(at3(0, i, k)), x.sf, factors[i], x.sf),
            x.sf,
            w.get(seq![k]),
            w.sf,
        )
}

/// The numbers of all rows, also of those outside the shape, are within the tolerances of the
/// checks, and these fit the table.
pub open spec fn rows_pass(
    x: Tensor,
    means: Seq<int>,
    factors: Seq<int>,
    s: usize,
    n: usize,
    sf: usize,
    bits: usize,
) -> bool {
    &&& n <= u32::MAX
    &&& n < pow2(bits as nat)
    &&& 1024 < pow2(bits as nat)
    &&& forall|i: int|
        0 <= i < padded(s) ==> {
            let r = #[trigger] factors[i];
            &&& -(n / 2) <= row_squares(x, i, n) - means[i] * n <= n / 2
            &&& -512 <= rescaled(means[i] * (r * r), (3 * x.sf) as usize, x.sf) - pow2(sf as nat)
                <= 512
        }
}

/// Sums of rows.
proof fn lemma_row_sums_run(g: Graph, x: usize, s: usize, n: usize, f: usize, run: Run)
    requires
        ready(g, 3),
        holds(g, x, seq![1, s, n], f),
        run.computes(g.einsum("bsi->bs"@, seq![x], false).0),
    ensures
        are_row_sums(run.on(x), run.on(g.einsum("bsi->bs"@, seq![x], false).1[0]), s, n),
{
    broadcast use lemma_ready_less, group_step_part, lemma_part_run, lemma_holds_run;

    let (h, out) = g.einsum("bsi->bs"@, seq![x], false);
    assert(run.computes(g));
    lemma_bsi_bs(1, s, n);
    lemma_unary_run(g, "bsi->bs"@, x, seq![1, s, n], f, run);
    lemma_padded_one();
    lemma_dims(s, n);
    lemma_bsi_bs_sum(run.on(x), run.on(out[0]), 1, s, n, 0, 0);
    assert forall|i: int| 0 <= i < padded(s) implies #[trigger] run.on(out[0]).table[i] == row_sum(
        run.on(x),
        i,
        n,
    ) by {
        lemma_bsi_bs_sum(run.on(x), run.on(out[0]), 1, s, n, 0, i);
        lemma_column_place(s, i);
        lemma_sum_ext(
            |ci: int| run.on(x).get(seq![0, i, ci]),
            |k: int| run.on(x).get(at3(0, i, k)),
            padded(n),
        );
    }
}

/// The sums of the rows of a tensor.
pub open spec fn are_row_sums(x: Tensor, sums: Tensor, s: usize, n: usize) -> bool {
    &&& sums.full()
    &&& forall|i: int| 0 <= i < padded(s) ==> #[trigger] sums.table[i] == row_sum(x, i, n)
}

/// The normalisation by the root mean square.
pub proof fn lemma_rms_norm_run(
    g: Graph,
    x: usize,
    w: usize,
    s: usize,
    n: usize,
    f: usize,
    d: usize,
    run: Run,
) -> (r: (Seq<int>, Seq<int>))
    requires
        ready(g, 40),
        holds(g, x, seq![1, s, n], f),
        holds(g, w, seq![n], d),
        g.sf_log < 32,
        f < 60,
        d < 60,
        run.computes(g.rms_norm(x, w).0),
    ensures
        part(g, g.rms_norm(x, w).0),
        is_normalised(
            run,
            run.passes(g.rms_norm(x, w).0),
            run.on(x),
            run.on(w),
            run.on(g.rms_norm(x, w).1[0]),
            r.0,
            r.1,
            s,
            n,
            g.sf_log,
        ),
        clean(g, run) && rows_pass(run.on(x), r.0, r.1, s, n, g.sf_log, g.table_size_log) ==> clean(
            g.rms_norm(x, w).0,
            run,
        ),
{
    broadcast use lemma_ready_less, group_step_part, lemma_part_run, lemma_holds_run;

    reveal(Graph::rms_norm);
    lemma_extends_self(g);
    let sf = g.sf_log;
    let shape = seq![1, s, n];
    let col = seq![1, s, 1];
    lemma_need(g, g.known(x) && shape.len() >= 2);
    let (g1, r) = g.rms_reciprocal(x);
    lemma_rms_reciprocal_fits(g, x);
    assert(last_dropped(shape) =~= col);
    lemma_next(g, g, g1, 0, 1);
    let (g2, unit) = g1.unit(sf);
    lemma_unit_fits(g1, sf);
    lemma_next(g, g1, g2, 1, 1);
    let (g3, tolerance) = g2.scalar(512, sf);
    lemma_scalar_fits(g2, 512, sf);
    lemma_next(g, g2, g3, 2, 1);
    let (g4, squares) = g3.einsum("bsi,bsi->bsi"@, seq![x, x], true);
    lemma_bsi_bsi_bsi(1, s, n);
    lemma_binary_fits(g3, "bsi,bsi->bsi"@, x, x, shape, shape, f, f, true);
    lemma_next(g, g3, g4, 3, 3);
    let (g5, sum) = g4.einsum("bsi->bs"@, seq![squares[0]], false);
    lemma_bsi_bs(1, s, n);
    lemma_unary_fits(g4, "bsi->bs"@, squares[0], shape, f);
    lemma_next(g, g4, g5, 6, 3);
    let (g6, mean) = g5.checked_mean(sum[0], n, col);
    lemma_checked_mean_fits(g5, sum[0], n, s, f);
    lemma_next(g, g5, g6, 9, 13);
    let (g7, r_square) = g6.einsum("bsi,bsi->bsi"@, seq![r[0], r[0]], false);
    lemma_bsi_bsi_bsi(1, s, 1);
    lemma_binary_fits(g6, "bsi,bsi->bsi"@, r[0], r[0], col, col, f, f, false);
    lemma_next(g, g6, g7, 22, 3);
    let (g8, z) = g7.einsum("bsi,bsi->bsi"@, seq![mean, r_square[0]], true);
    lemma_binary_fits(g7, "bsi,bsi->bsi"@, mean, r_square[0], col, col, f, (f + f) as usize, true);
    lemma_next(g, g7, g8, 25, 3);
    let (g9, z_diff) = g8.minus(z[0], unit);
    lemma_single_entry(col);
    lemma_minus_fits(g8, z[0], unit, col, seq![1usize], f, sf);
    lemma_next(g, g8, g9, 28, 1);
    let g10 = g9.within(z_diff[0], tolerance);
    lemma_within_fits(g9, z_diff[0], tolerance, col, f, sf);
    lemma_next(g, g9, g10, 29, 4);
    let (g11, factor) = g10.change_shape(r[0], seq![1, s]);
    lemma_change_shape_fits(g10, r[0], seq![1, s]);
    lemma_next(g, g10, g11, 33, 1);
    let (g12, h) = g11.einsum("bsi,bs->bsi"@, seq![x, factor], true);
    lemma_bsi_bs_bsi(1, s, n);
    lemma_binary_fits(g11, "bsi,bs->bsi"@, x, factor, shape, seq![1, s], f, f, true);
    lemma_next(g, g11, g12, 34, 3);
    let (g13, out) = g12.einsum("bsi,i->bsi"@, seq![h[0], w], true);
    lemma_bsi_i_bsi(1, s, n);
    assert(run.computes(g12) && run.computes(g11) && run.computes(g10));
    lemma_within_run(g9, z_diff[0], tolerance, col, f, sf, run);
    assert(run.computes(g9) && run.computes(g8) && run.computes(g7) && run.computes(g6));
    assert(part(g, g5)) by {
        lemma_part_more(g, g1, g2);
        lemma_part_more(g, g2, g3);
        lemma_part_more(g, g3, g4);
        lemma_part_more(g, g4, g5);
    }
    assert(part(g6, g13)) by {
        lemma_part_more(g6, g7, g8);
        lemma_part_more(g6, g8, g9);
        lemma_part_more(g6, g9, g10);
        lemma_part_more(g6, g10, g11);
        lemma_part_more(g6, g11, g12);
        lemma_part_more(g6, g12, g13);
    }
    // the sums have to be known to fill their table before the mean is looked at
    lemma_mean_part(g5, sum[0], n, s, f, run);
    assert(run.computes(g5) && run.computes(g4) && run.computes(g3) && run.computes(g2));
    assert(run.computes(g1) && run.computes(g));
    lemma_part_more(g, g5, g6);
    lemma_part_more(g, g6, g13);
    lemma_rms_reciprocal_run(g, x, run);
    lemma_unit_run(g1, sf, run);
    lemma_scalar_run(g2, 512, sf, run);
    lemma_product_run(g3, x, x, s, n, f, f, true, run);
    lemma_row_sums_run(g4, squares[0], s, n, f, run);
    lemma_checked_mean_run(g5, sum[0], n, s, f, run);
    lemma_product_run(g6, r[0], r[0], s, 1, f, f, false, run);
    lemma_product_run(g7, mean, r_square[0], s, 1, f, (f + f) as usize, true, run);
    lemma_minus_run(g8, z[0], unit, run);
    lemma_change_shape_run(g10, r[0], seq![1, s], run);
    let t = lemma_binary_run(g11, "bsi,bs->bsi"@, x, factor, shape, seq![1, s], f, f, true, run);
    let u = lemma_binary_run(g12, "bsi,i->bsi"@, h[0], w, shape, seq![n], f, d, true, run);
    lemma_padded_one();
    lemma_dims(s, n);
    lemma_three(1, s, n, 0, 0, 0);
    lemma_bsi_i_bsi_sum(run.on(h[0]), run.on(w), u, 1, s, n, 0, 0, 0);
    lemma_rescaled_get(u, (f + d) as usize, f, at3(0, 0, 0));
    let means = run.on(mean).table;
    let factors = run.on(r[0]).table;
    assert forall|i: int| 0 <= i < s implies is_row_factor(
        run,
        run.passes(g13),
        run.on(x),
        i,
        n,
        sf,
        means[i],
        #[trigger] factors[i],
    ) by {
        lemma_column_place(s, i);
        assert(is_mean(run, run.passes(g6), run.on(sum[0]).table[i], means[i], n));
        lemma_sum_ext(
            |k: int| run.on(squares[0]).get(at3(0, i, k)),
            |k: int|
                times(run.on(x).get(at3(0, i, k)), f, run.on(x).get(at3(0, i, k)), f),
            padded(n),
        );
        if run.honest {
            let c = seq![0, i, 0];
            assert(interior(col, c));
            assert(row_of(run.on(x), c, n) =~= row(run.on(x), i, n)) by {
                assert forall|k: int| 0 <= k < n implies c.update(2, k) == at3(0, i, k) by {
                    assert(c.update(2, k) =~= at3(0, i, k));
                }
            }
            assert(run.on(r[0]).get(c) == factors[i]);
        }
        if run.passes(g13) {
            assert(run.on(r_square[0]).get(at3(0, i, 0)) == factors[i] * factors[i]);
            assert(run.on(z[0]).get(at3(0, i, 0)) == times(
                means[i],
                f,
                factors[i] * factors[i],
                (f + f) as usize,
            ));
            lemma_right_combined(run.on(z[0]), run.on(unit), run.on(z_diff[0]), true, i);
            assert(-512 <= run.on(z_diff[0]).table[i] <= 512);
        }
    }
    assert forall|i: int, k: int| 0 <= i < s && 0 <= k < padded(n) implies #[trigger] run.on(
        out[0],
    ).get(at3(0, i, k)) == times(
        times(run.on(x).get(at3(0, i, k)), f, factors[i], f),
        f,
        run.on(w).get(seq![k]),
        d,
    ) by {
        lemma_three(1, s, n, 0, i, k);
        lemma_column_place(s, i);
        lemma_bsi_bs_bsi_sum(run.on(x), run.on(factor), t, 1, s, n, 0, i, k);
        lemma_rescaled_get(t, (f + f) as usize, f, at3(0, i, k));
        lemma_bsi_i_bsi_sum(run.on(h[0]), run.on(w), u, 1, s, n, 0, i, k);
        lemma_rescaled_get(u, (f + d) as usize, f, at3(0, i, k));
    }
    if clean(g, run) && rows_pass(run.on(x), means, factors, s, n, sf, g.table_size_log) {
        let bits = g.table_size_log;
        assert(g5.table_size_log == bits && g9.table_size_log == bits) by {
            reveal(extends);
        }
        assert forall|i: int| 0 <= i < padded(s) implies -(n / 2) <= run.on(sum[0]).table[i]
            - #[trigger] means[i] * n <= n / 2 by {
            lemma_sum_ext(
                |k: int| run.on(squares[0]).get(at3(0, i, k)),
                |k: int|
                    times(run.on(x).get(at3(0, i, k)), f, run.on(x).get(at3(0, i, k)), f),
                padded(n),
            );
            assert(run.on(sum[0]).table[i] == row_squares(run.on(x), i, n));
            let factor = factors[i];
        }
        assert forall|p: int| 0 <= p < pow2(num_vars(col)) implies -512 <= #[trigger] run.on(
            z_diff[0],
        ).table[p] <= 512 by {
            lemma_column_place(s, 0);
            lemma_column_place(s, p);
            assert(run.on(r_square[0]).get(at3(0, p, 0)) == factors[p] * factors[p]);
            assert(run.on(z[0]).get(at3(0, p, 0)) == times(
                means[p],
                f,
                factors[p] * factors[p],
                (f + f) as usize,
            ));
            lemma_right_combined(run.on(z[0]), run.on(unit), run.on(z_diff[0]), true, p);
        }
        assert(clean(g13, run)) by {
            broadcast use group_clean;

            assert(clean(g1, run) && clean(g2, run) && clean(g3, run) && clean(g4, run));
            assert(clean(g5, run));
            lemma_checked_mean_clean(g5, sum[0], n, s, f, run);
            assert(clean(g7, run) && clean(g8, run) && clean(g9, run));
            lemma_within_clean(g9, z_diff[0], tolerance, col, f, sf, run);
            assert(clean(g11, run) && clean(g12, run));
        }
    }
    (means, factors)
}

/// A checked mean leaves what was there as it was.
proof fn lemma_mean_part(g: Graph, sum: usize, n: usize, s: usize, f: usize, run: Run)
    requires
        ready(g, 13),
        holds(g, sum, seq![1, s], f),
    ensures
        part(g, g.checked_mean(sum, n, seq![1, s, 1]).0),
{
    reveal(Graph::checked_mean);
    reveal(Graph::within);
    broadcast use group_step_part;

    let shape = seq![1, s, 1];
    let (g1, quotient) = g.div_const(sum, n);
    let (g2, m) = g1.change_shape(quotient[0], shape);
    let (g3, n_param) = g2.scalar(n as u32 as u64, 0);
    let (g4, tolerance) = g3.scalar((n / 2) as u32 as u64, g.sf_log);
    let (g5, product) = g4.einsum("bsi,i->bsi"@, seq![m, n_param], false);
    let (g6, total) = g5.change_shape(sum, shape);
    let (g7, difference) = g6.minus(total, product[0]);
    let (g8, above) = g7.plus(difference[0], tolerance);
    let (g9, below) = g8.minus(tolerance, difference[0]);
    let g10 = g9.nonneg(above[0]);
    let g11 = g10.nonneg(below[0]);
    lemma_part_more(g, g1, g2);
    lemma_part_more(g, g2, g3);
    lemma_part_more(g, g3, g4);
    lemma_part_more(g, g4, g5);
    lemma_part_more(g, g5, g6);
    lemma_part_more(g, g6, g7);
    lemma_part_more(g, g7, g8);
    lemma_part_more(g, g8, g9);
    lemma_part_more(g, g9, g10);
    lemma_part_more(g, g10, g11);
}

/// The tensor is centred: the mean of each row is taken off its entries, and what is outside the
/// row is cleared.
pub open spec fn is_centred(
    run: Run,
    passes: bool,
    x: Tensor,
    means: Seq<int>,
    centred: Tensor,
    s: usize,
    n: usize,
) -> bool {
    &&& centred.full()
    &&& centred.sf == x.sf
    &&& forall|i: int|
        0 <= i < s ==> is_mean(run, passes, row_sum(x, i, n), #[trigger] means[i], n)
    &&& forall|i: int, k: int|
        0 <= i < s && 0 <= k < padded(n) ==> #[trigger] centred.get(at3(0, i, k)) == if k < n {
            x.get(at3(0, i, k)) - means[i]
        } else {
            0
        }
}

/// The means of all rows, also of those outside the shape, are within half a step of the exact
/// ones.
pub open spec fn means_pass(x: Tensor, means: Seq<int>, s: usize, n: usize) -> bool {
    forall|i: int|
        0 <= i < padded(s) ==> -(n / 2) <= row_sum(x, i, n) - #[trigger] means[i] * n <= n / 2
}

/// The layer norm: what is normalised is the centred input. The means of the rows, the centred
/// tensor, and the mean squares and factors of its rows are given.
pub proof fn lemma_layer_norm_run(
    g: Graph,
    x: usize,
    w: usize,
    s: usize,
    n: usize,
    f: usize,
    d: usize,
    run: Run,
) -> (r: (Seq<int>, Tensor, Seq<int>, Seq<int>))
    requires
        ready(g, 61),
        holds(g, x, seq![1, s, n], f),
        holds(g, w, seq![n], d),
        num_vars(seq![1, s, n]) < usize::BITS,
        g.sf_log < 32,
        f < 60,
        d < 60,
        run.computes(g.layer_norm(x, w).0),
    ensures
        part(g, g.layer_norm(x, w).0),
        is_centred(run, run.passes(g.layer_norm(x, w).0), run.on(x), r.0, r.1, s, n),
        is_normalised(
            run,
            run.passes(g.layer_norm(x, w).0),
            r.1,
            run.on(w),
            run.on(g.layer_norm(x, w).1[0]),
            r.2,
            r.3,
            s,
            n,
            g.sf_log,
        ),
        clean(g, run) && rows_pass(r.1, r.2, r.3, s, n, g.sf_log, g.table_size_log) && means_pass(
            run.on(x),
            r.0,
            s,
            n,
        ) ==> clean(g.layer_norm(x, w).0, run),
{
    broadcast use lemma_ready_less, group_step_part, lemma_part_run, lemma_holds_run;

    reveal(Graph::layer_norm);
    lemma_extends_self(g);
    let shape = seq![1, s, n];
    let col = seq![1, s, 1];
    lemma_need(g, g.known(x) && shape.len() >= 2);
    let (g1, sum) = g.einsum("bsi->bs"@, seq![x], false);
    lemma_bsi_bs(1, s, n);
    lemma_unary_fits(g, "bsi->bs"@, x, shape, f);
    lemma_next(g, g, g1, 0, 3);
    let (g2, mean) = g1.checked_mean(sum[0], n, col);
    lemma_checked_mean_fits(g1, sum[0], n, s, f);
    lemma_next(g, g1, g2, 3, 13);
    let (g3, centred) = g2.minus(x, mean);
    lemma_row(s, n);
    lemma_minus_fits(g2, x, mean, shape, col, f, f);
    lemma_next(g, g2, g3, 16, 1);
    let (g4, masked) = g3.mask(centred[0], shape);
    lemma_mask_fits(g3, centred[0], shape, f);
    lemma_next(g, g3, g4, 17, 4);
    let (g5, out) = g4.rms_norm(masked, w);
    let (squares, factors) = lemma_rms_norm_run(g4, masked, w, s, n, f, d, run);
    assert(run.computes(g4));
    lemma_mask_run(g3, centred[0], shape, f, run);
    assert(run.computes(g3) && run.computes(g2));
    lemma_mean_part(g1, sum[0], n, s, f, run);
    assert(run.computes(g1) && run.computes(g));
    assert(part(g, g5)) by {
        lemma_part_more(g, g1, g2);
        lemma_part_more(g, g2, g3);
        lemma_part_more(g, g3, g4);
        lemma_part_more(g, g4, g5);
    }
    lemma_row_sums_run(g, x, s, n, f, run);
    lemma_checked_mean_run(g1, sum[0], n, s, f, run);
    lemma_minus_run(g2, x, mean, run);
    let means = run.on(mean).table;
    lemma_padded_one();
    lemma_dims(s, n);
    let (t, u) = (run.on(masked), run.on(centred[0]));
    assert forall|i: int| 0 <= i < s implies is_mean(
        run,
        run.passes(g5),
        row_sum(run.on(x), i, n),
        #[trigger] means[i],
        n,
    ) by {
        assert(is_mean(run, run.passes(g2), run.on(sum[0]).table[i], means[i], n));
    }
    assert forall|i: int, k: int| 0 <= i < s && 0 <= k < padded(n) implies #[trigger] t.get(
        at3(0, i, k),
    ) == if k < n {
        run.on(x).get(at3(0, i, k)) - means[i]
    } else {
        0
    } by {
        lemma_three(1, s, n, 0, i, k);
        let c = at3(0, i, k);
        assert(t.get(c) == if k < n {
            u.get(c)
        } else {
            0
        });
        lemma_column_place(s, i);
        assert(aligned(shape, c) =~= c);
        assert(aligned(col, c) =~= seq![0, i, 0]);
        assert(u.get(c) == run.on(x).get(c) - run.on(mean).get(seq![0, i, 0]));
    }
    if clean(g, run) && rows_pass(t, squares, factors, s, n, g.sf_log, g.table_size_log)
        && means_pass(run.on(x), means, s, n) {
        assert(g1.table_size_log == g.table_size_log && g4.table_size_log == g.table_size_log) by {
            reveal(extends);
        }
        assert forall|i: int| 0 <= i < padded(s) implies -(n / 2) <= run.on(sum[0]).table[i]
            - #[trigger] means[i] * n <= n / 2 by {
            assert(run.on(sum[0]).table[i] == row_sum(run.on(x), i, n));
        }
        assert(clean(g4, run)) by {
            broadcast use group_clean;

            assert(clean(g1, run));
            lemma_checked_mean_clean(g1, sum[0], n, s, f, run);
            assert(clean(g3, run));
            lemma_mask_clean(g3, centred[0], shape, run);
        }
    }
    (means, t, squares, factors)
}

/// The sum of a row whose entries outside the shape are zero.
proof fn lemma_row_sum_inside(x: Tensor, i: int, n: usize)
    requires
        forall|k: int| n <= k < padded(n) ==> #[trigger] x.get(at3(0, i, k)) == 0,
    ensures
        row_sum(x, i, n) == sum_to(|k: int| x.get(at3(0, i, k)), n as int),
{
    lemma_dims(n, n);
    lemma_sum_ends(|k: int| x.get(at3(0, i, k)), n as int, padded(n));
}

/// A sum of differences to a constant.
proof fn lemma_sum_shifted(a: spec_fn(int) -> int, b: spec_fn(int) -> int, c: int, n: int)
    requires
        0 <= n,
        forall|k: int| 0 <= k < n ==> #[trigger] b(k) == a(k) + c,
    ensures
        sum_to(b, n) == sum_to(a, n) + n * c,
    decreases n,
{
    if n > 0 {
        lemma_sum_shifted(a, b, c, n - 1);
        assert(b(n - 1) == a(n - 1) + c);
        assert((n - 1) * c + c == n * c) by (nonlinear_arith);
    } else {
        assert(n * c == 0) by (nonlinear_arith)
            requires
                n == 0,
        ;
    }
}

/// Means that are within half a step differ by what the sums differ by, unless a sum lies in the
/// middle between two multiples.
proof fn lemma_means_shift(a: int, p: int, b: int, q: int, c: int, n: int)
    requires
        n > 0,
        b == a + n * c,
        -n <= 2 * (a - p * n) <= n,
        -n <= 2 * (b - q * n) <= n,
        forall|k: int| 2 * a != #[trigger] (k * n) * 2 + n,
    ensures
        q == p + c,
{
    let m = q - c;
    assert(b - q * n == a - m * n) by (nonlinear_arith)
        requires
            b == a + n * c,
            m == q - c,
    ;
    assert(2 * a != (p * n) * 2 + n);
    assert(2 * a != ((p - 1) * n) * 2 + n);
    assert((p - 1) * n == p * n - n) by (nonlinear_arith);
    assert(-n < 2 * (a - p * n) < n);
    let t = m - p;
    assert(m * n - p * n == t * n) by (nonlinear_arith)
        requires
            t == m - p,
    ;
    assert(-n < t * n < n);
    assert(t == 0) by (nonlinear_arith)
        requires
            -n < t * n < n,
            n > 0,
    ;
}

/// The layer norm does not change when a constant is added to all entries of a row: the rows of the
/// outputs are equal. A sum in the middle between two multiples of the length, where the mean is
/// rounded away from zero, is left out.
pub proof fn lemma_layer_norm_shift(
    g: Graph,
    x: usize,
    w: usize,
    s: usize,
    n: usize,
    f: usize,
    d: usize,
    run: Run,
    other: Run,
    i: int,
    c: int,
)
    requires
        ready(g, 61),
        holds(g, x, seq![1, s, n], f),
        holds(g, w, seq![n], d),
        num_vars(seq![1, s, n]) < usize::BITS,
        g.sf_log < 32,
        f < 60,
        d < 60,
        0 < n <= u32::MAX,
        run.computes(g.layer_norm(x, w).0),
        run.passes(g.layer_norm(x, w).0),
        run.honest,
        other.computes(g.layer_norm(x, w).0),
        other.passes(g.layer_norm(x, w).0),
        other.honest,
        other.inverse_rms == run.inverse_rms,
        other.on(w) == run.on(w),
        0 <= i < s,
        forall|k: int|
            0 <= k < n ==> #[trigger] other.on(x).get(at3(0, i, k)) == run.on(x).get(at3(0, i, k))
                + c,
        forall|k: int|
            n <= k < padded(n) ==> #[trigger] run.on(x).get(at3(0, i, k)) == 0,
        forall|k: int|
            n <= k < padded(n) ==> #[trigger] other.on(x).get(at3(0, i, k)) == 0,
        forall|k: int| 2 * row_sum(run.on(x), i, n) != #[trigger] (k * n) * 2 + n,
    ensures
        forall|k: int|
            0 <= k < padded(n) ==> #[trigger] other.on(g.layer_norm(x, w).1[0]).get(at3(0, i, k))
                == run.on(g.layer_norm(x, w).1[0]).get(at3(0, i, k)),
{
    let r = lemma_layer_norm_run(g, x, w, s, n, f, d, run);
    let q = lemma_layer_norm_run(g, x, w, s, n, f, d, other);
    lemma_row_sum_inside(run.on(x), i, n);
    lemma_row_sum_inside(other.on(x), i, n);
    lemma_sum_shifted(
        |k: int| run.on(x).get(at3(0, i, k)),
        |k: int| other.on(x).get(at3(0, i, k)),
        c,
        n as int,
    );
    let (a, b) = (row_sum(run.on(x), i, n), row_sum(other.on(x), i, n));
    assert(is_mean(run, true, a, r.0[i], n));
    assert(is_mean(other, true, b, q.0[i], n));
    lemma_means_shift(a, r.0[i], b, q.0[i], c, n as int);
    lemma_dims(n, n);
    assert forall|k: int| 0 <= k < padded(n) implies r.1.get(at3(0, i, k)) == q.1.get(
        at3(0, i, k),
    ) by {}
    assert(row(r.1, i, n) =~= row(q.1, i, n));
    broadcast use lemma_part_run, lemma_holds_run;

    assert(run.computes(g) && other.computes(g));
    assert(is_row_factor(run, true, r.1, i, n, g.sf_log, r.2[i], r.3[i]));
    assert(is_row_factor(other, true, q.1, i, n, g.sf_log, q.2[i], q.3[i]));
}

/// A product of at least as many fractional bits as are taken off, up to rounding.
pub proof fn lemma_times(a: int, sf: usize, b: int, by: usize)
    requires
        sf + by <= usize::MAX,
    ensures
        pow2(by as nat) > 0,
        -pow2(by as nat) <= 2 * (times(a, sf, b, by) * pow2(by as nat) - a * b) <= pow2(by as nat),
{
    vstd::arithmetic::power2::lemma_pow2_pos(by as nat);
    lemma_rescaled(a * b, (sf + by) as usize, sf);
    if by == 0 {
        crate::math::lemma_pow2_small();
        let one = pow2(0) as int;
        assert(a * b * one == a * b) by (nonlinear_arith)
            requires
                one == 1,
        ;
    }
}

/// A sum of numbers that are close to multiples of others.
proof fn lemma_sum_close(
    a: spec_fn(int) -> int,
    b: spec_fn(int) -> int,
    p: int,
    q: int,
    e: int,
    n: int,
)
    requires
        0 <= n,
        forall|k: int| 0 <= k < n ==> -e <= #[trigger] a(k) * p - b(k) * q <= e,
    ensures
        -(n * e) <= sum_to(a, n) * p - sum_to(b, n) * q <= n * e,
    decreases n,
{
    if n > 0 {
        lemma_sum_close(a, b, p, q, e, n - 1);
        let (x, y) = (sum_to(a, n - 1), sum_to(b, n - 1));
        assert(-e <= a(n - 1) * p - b(n - 1) * q <= e);
        assert((x + a(n - 1)) * p == x * p + a(n - 1) * p) by (nonlinear_arith);
        assert((y + b(n - 1)) * q == y * q + b(n - 1) * q) by (nonlinear_arith);
        assert((n - 1) * e + e == n * e) by (nonlinear_arith);
    } else {
        assert(n * e == 0 && 0 * p == 0 && 0 * q == 0) by (nonlinear_arith)
            requires
                n == 0,
        ;
    }
}

/// With equal weights `v` a row of the output of the layer norm adds up to zero up to rounding: to
/// at most half a unit for the mean and for the result of each of the two products, times what they
/// are multiplied by.
pub proof fn lemma_layer_norm_sum(
    g: Graph,
    x: usize,
    w: usize,
    s: usize,
    n: usize,
    f: usize,
    d: usize,
    run: Run,
    i: int,
    v: int,
) -> (r: int)
    requires
        ready(g, 61),
        holds(g, x, seq![1, s, n], f),
        holds(g, w, seq![n], d),
        num_vars(seq![1, s, n]) < usize::BITS,
        g.sf_log < 32,
        f < 60,
        d < 60,
        0 < n <= u32::MAX,
        run.computes(g.layer_norm(x, w).0),
        run.passes(g.layer_norm(x, w).0),
        0 <= i < s,
        forall|k: int|
            n <= k < padded(n) ==> #[trigger] run.on(x).get(at3(0, i, k)) == 0,
        forall|k: int| 0 <= k < n ==> run.on(w).get(#[trigger] seq![k]) == v,
    ensures
        ({
            let sum = sum_to(
                |k: int| run.on(g.layer_norm(x, w).1[0]).get(at3(0, i, k)),
                n as int,
            );
            let (p, q) = (pow2(f as nat) as int, pow2(d as nat) as int);
            let a = if r * v < 0 {
                -(r * v)
            } else {
                r * v
            };
            let b = if v < 0 {
                -v
            } else {
                v
            };
            -(n * (a + p * q + p * b)) <= 2 * (sum * (p * q)) <= n * (a + p * q + p * b)
        }),
        run.honest ==> exists|c: Seq<int>|
            c.len() == n && r == #[trigger] (run.inverse_rms)(c, f),
{
    let found = lemma_layer_norm_run(g, x, w, s, n, f, d, run);
    let (mean, centred, r) = (found.0[i], found.1, found.3[i]);
    broadcast use lemma_part_run, lemma_holds_run;

    assert(run.computes(g));
    lemma_dims(n, n);
    lemma_row_sum_inside(run.on(x), i, n);
    let out = run.on(g.layer_norm(x, w).1[0]);
    let cs = |k: int| centred.get(at3(0, i, k));
    let xs = |k: int| run.on(x).get(at3(0, i, k));
    let os = |k: int| out.get(at3(0, i, k));
    lemma_sum_shifted(cs, xs, mean, n as int);
    let total = sum_to(cs, n as int);
    assert(is_mean(run, true, row_sum(run.on(x), i, n), mean, n));
    assert(n * mean == mean * n) by (nonlinear_arith);
    assert(-n <= 2 * total <= n);
    let (p, q) = (pow2(f as nat) as int, pow2(d as nat) as int);
    vstd::arithmetic::power2::lemma_pow2_pos(f as nat);
    vstd::arithmetic::power2::lemma_pow2_pos(d as nat);
    let b = if v < 0 {
        -v
    } else {
        v
    };
    let e = p * q + p * b;
    let m = 2 * (p * q);
    let t = 2 * (r * v);
    assert forall|k: int| 0 <= k < n implies -e <= #[trigger] os(k) * m - cs(k) * t <= e by {
        let c = cs(k);
        let y = times(c, f, r, f);
        assert(run.on(w).get(seq![k]) == v);
        let z = times(y, f, v, d);
        assert(out.get(at3(0, i, k)) == z);
        lemma_times(c, f, r, f);
        lemma_times(y, f, v, d);
        let (u, h) = (y * p - c * r, z * q - y * v);
        assert(p * (2 * h) == 2 * (p * (z * q)) - 2 * (p * (y * v))) by (nonlinear_arith)
            requires
                h == z * q - y * v,
        ;
        assert(v * (2 * u) == 2 * (v * (y * p)) - 2 * (v * (c * r))) by (nonlinear_arith)
            requires
                u == y * p - c * r,
        ;
        assert(p * (y * v) == v * (y * p)) by (nonlinear_arith);
        assert(z * m == 2 * (p * (z * q))) by (nonlinear_arith)
            requires
                m == 2 * (p * q),
        ;
        assert(c * t == 2 * (v * (c * r))) by (nonlinear_arith)
            requires
                t == 2 * (r * v),
        ;
        assert(-(p * q) <= p * (2 * h) <= p * q) by (nonlinear_arith)
            requires
                -q <= 2 * h <= q,
                p > 0,
        ;
        assert(-(p * b) <= v * (2 * u) <= p * b) by (nonlinear_arith)
            requires
                -p <= 2 * u <= p,
                b == v || b == -v,
                b >= 0,
        ;
    }
    lemma_sum_close(os, cs, m, t, e, n as int);
    let sum = sum_to(os, n as int);
    let a = if r * v < 0 {
        -(r * v)
    } else {
        r * v
    };
    assert(-(n * a) <= total * t <= n * a) by (nonlinear_arith)
        requires
            -n <= 2 * total <= n,
            t == 2 * (r * v),
            a == r * v || a == -(r * v),
            a >= 0,
    ;
    assert(n * (a + p * q + p * b) == n * a + n * e) by (nonlinear_arith)
        requires
            e == p * q + p * b,
    ;
    assert(sum * m == 2 * (sum * (p * q))) by (nonlinear_arith)
        requires
            m == 2 * (p * q),
    ;
    assert(is_row_factor(run, true, centred, i, n, g.sf_log, found.2[i], r));
    r
}

/// The reciprocals of the entries of a tensor: those of the operation if it does what it is for,
/// and one up to a tolerance when multiplied with their entries if the checks pass.
pub open spec fn are_reciprocals(
    run: Run,
    passes: bool,
    x: Tensor,
    r: Tensor,
    sf: usize,
) -> bool {
    &&& r.full()
    &&& forall|p: int|
        0 <= p < pow2(num_vars(r.shape)) ==> {
            &&& run.honest ==> #[trigger] r.table[p] == reciprocal_of(x.table[p], x.sf as nat)
            &&& passes ==> -512 <= times(x.table[p], x.sf, r.table[p], x.sf) - pow2(sf as nat)
                <= 512
        }
}

/// The products of the entries of two tensors are one up to a tolerance.
pub open spec fn are_inverse(x: Tensor, r: Tensor, sf: usize) -> bool {
    forall|p: int|
        0 <= p < pow2(num_vars(r.shape)) ==> -512 <= times(
            x.table[p],
            x.sf,
            #[trigger] r.table[p],
            x.sf,
        ) - pow2(sf as nat) <= 512
}

/// The reciprocals of a tensor.
pub proof fn lemma_reciprocal_run(g: Graph, a: usize, shape: Seq<usize>, f: usize, run: Run)
    requires
        ready(g, 11),
        holds(g, a, shape, f),
        1 <= shape.len() <= 26,
        f < 60,
        g.sf_log < 64,
        run.computes(g.reciprocal(a).0),
    ensures
        part(g, g.reciprocal(a).0),
        are_reciprocals(
            run,
            run.passes(g.reciprocal(a).0),
            run.on(a),
            run.on(g.reciprocal(a).1[0]),
            g.sf_log,
        ),
        clean(g, run) && 1024 < pow2(g.table_size_log as nat) && are_inverse(
            run.on(a),
            run.on(g.reciprocal(a).1[0]),
            g.sf_log,
        ) ==> clean(g.reciprocal(a).0, run),
{
    broadcast use lemma_ready_less, group_step_part, lemma_part_run, lemma_holds_run;

    reveal(Graph::reciprocal);
    lemma_extends_self(g);
    let sf = g.sf_log;
    let v = g.value(a);
    let s = letters_of(shape.len());
    let e = s + ","@ + s + "->"@ + s;
    lemma_need(g, g.known(a) && shape.len() <= 26);
    let value = empty_value(shape, v.data_type, f, Role::Auxiliary);
    let (g1, r) = g.with_value(value).with_node(seq![a], Op::Reciprocal);
    lemma_value_node_fits(g, a, Op::Reciprocal, value);
    lemma_next(g, g, g1, 0, 1);
    let (g2, unit) = g1.unit(f);
    lemma_unit_fits(g1, f);
    lemma_next(g, g1, g2, 1, 1);
    let (g3, tolerance) = g2.scalar(512, f);
    lemma_scalar_fits(g2, 512, f);
    lemma_next(g, g2, g3, 2, 1);
    let (g4, z) = g3.einsum(e, seq![a, r[0]], true);
    lemma_entrywise(shape);
    lemma_binary_fits(g3, e, a, r[0], shape, shape, f, f, true);
    lemma_next(g, g3, g4, 3, 3);
    let (g5, z_diff) = g4.minus(z[0], unit);
    lemma_single_entry(shape);
    lemma_minus_fits(g4, z[0], unit, shape, seq![1usize], f, f);
    lemma_next(g, g4, g5, 6, 1);
    let g6 = g5.within(z_diff[0], tolerance);
    lemma_within_run(g5, z_diff[0], tolerance, shape, f, f, run);
    assert(run.computes(g5) && run.computes(g4) && run.computes(g3) && run.computes(g2));
    assert(run.computes(g1));
    lemma_value_node_run(g, a, Op::Reciprocal, value, run);
    assert(run.computes(g));
    lemma_part_more(g, g1, g2);
    lemma_part_more(g, g2, g3);
    lemma_part_more(g, g3, g4);
    lemma_part_more(g, g4, g5);
    lemma_part_more(g, g5, g6);
    lemma_unit_run(g1, f, run);
    lemma_scalar_run(g2, 512, f, run);
    let m = lemma_binary_run(g3, e, a, r[0], shape, shape, f, f, true, run);
    lemma_minus_run(g4, z[0], unit, run);
    let (x, y) = (run.on(a), run.on(r[0]));
    assert(y == r.map_values(|e: usize| run.on(e))[0]);
    assert forall|p: int| 0 <= p < pow2(num_vars(y.shape)) implies {
        &&& run.honest ==> #[trigger] y.table[p] == reciprocal_of(x.table[p], x.sf as nat)
        &&& run.passes(g6) ==> -512 <= times(x.table[p], x.sf, y.table[p], x.sf) - pow2(sf as nat)
            <= 512
    } by {
        lemma_entrywise_sum(x, y, m, shape, p);
        if run.passes(g6) {
            lemma_right_combined(run.on(z[0]), run.on(unit), run.on(z_diff[0]), true, p);
            assert(-512 <= run.on(z_diff[0]).table[p] <= 512);
        }
    }
    if clean(g, run) && 1024 < pow2(g.table_size_log as nat) && are_inverse(x, y, sf) {
        assert(g5.table_size_log == g.table_size_log) by {
            reveal(extends);
        }
        assert forall|p: int| 0 <= p < pow2(num_vars(shape)) implies -512 <= #[trigger] run.on(
            z_diff[0],
        ).table[p] <= 512 by {
            lemma_entrywise_sum(x, y, m, shape, p);
            lemma_right_combined(run.on(z[0]), run.on(unit), run.on(z_diff[0]), true, p);
            let inverse = y.table[p];
        }
        assert(clean(g6, run)) by {
            broadcast use group_clean;

            reveal(ready);
            lemma_clean_step(g, g1, run);
            assert(clean(g2, run) && clean(g3, run) && clean(g4, run) && clean(g5, run));
            lemma_within_clean(g5, z_diff[0], tolerance, shape, f, f, run);
        }
    }
}

/// A node with one output after its value.
proof fn lemma_value_node_fits(g: Graph, a: usize, op: Op, v: Value)
    requires
        ready(g, 1),
        op_arity(op) == 1,
        v.data is None,
    ensures
        extends(g, g.with_value(v).with_node(seq![a], op).0, 1),
        computed(
            g.with_value(v).with_node(seq![a], op).0,
            g.with_value(v).with_node(seq![a], op).1[0],
            v.shape,
            v.sf,
        ),
        g.with_value(v).with_node(seq![a], op).1.len() == 1,
{
    reveal(ready);
    reveal(extends);
}

} // verus!
