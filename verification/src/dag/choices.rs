//! What token embeddings, logits and the check of chosen tokens compute.
use crate::arith::ceil_log;
use crate::dag::entries::{addresses, lemma_place, lemma_places, padded, place, Tensor};
use crate::dag::fits::{
    extends, holds, lemma_binary_fits, lemma_change_shape_fits, lemma_column, lemma_extends_self,
    lemma_minus_fits, lemma_need, lemma_next, lemma_param_fits, lemma_ready_less, ready,
};
use crate::dag::graph::{Graph, Op};
use crate::dag::mlps::{at2, lemma_dims};
use crate::dag::oneshot::{lemma_one_hot_picks, one_hot_table, one_hot_value, selectable};
use crate::dag::readings::{lemma_sv_sv_s, lemma_sv_vd_sd};
use crate::dag::run::{
    aligned, group_step_part, lemma_binary_run, lemma_change_shape_run, lemma_holds_run,
    lemma_minus_run, lemma_nonneg_run, lemma_param_run, lemma_part_more, lemma_part_run,
    lemma_signed_small, part, Run,
};
use crate::dag::sums::{lemma_padded_one, lemma_sv_sv_s_sum, lemma_sv_vd_sd_sum};
use crate::math::lemma_sum_ext;
use crate::shape::broadcasted;
use vstd::arithmetic::power2::pow2;
use vstd::prelude::*;

verus! {

/// Coordinates in a matrix.
pub proof fn lemma_two(a: usize, b: usize, i: int, j: int)
    requires
        0 <= i < padded(a),
        0 <= j < padded(b),
    ensures
        addresses(seq![a, b], at2(i, j)),
        place(seq![a, b], at2(i, j)) == i + j * padded(a),
{
    assert(addresses(seq![a, b], at2(i, j)));
    lemma_places(seq![a, b], at2(i, j));
}

/// The selector in a run.
proof fn lemma_selector_run(g: Graph, s: usize, v: usize, ids: Seq<usize>, run: Run)
    requires
        ready(g, 1),
        run.computes(g.param(one_hot_value(s, v, ids)).0),
    ensures
        run.on(g.param(one_hot_value(s, v, ids)).1).shape == seq![s, v],
        run.on(g.param(one_hot_value(s, v, ids)).1).sf == 0,
        run.on(g.param(one_hot_value(s, v, ids)).1).table == one_hot_table(
            s as nat,
            v as nat,
            ids,
        ),
{
    let value = one_hot_value(s, v, ids);
    lemma_param_run(g, value, run);
    lemma_signed_small(0);
    lemma_signed_small(1);
    let table = one_hot_table(s as nat, v as nat, ids);
    let mapped = run.on(g.param(value).1).table;
    assert forall|p: int| 0 <= p < table.len() implies mapped[p] == table[p] by {
        assert(table[p] == 0 || table[p] == 1);
    }
    assert(mapped =~= table);
}

/// A difference of the logits of the chosen tokens to all others: at `(i, u)` the logit of the
/// token of row `i` less logit `(i, u)`.
pub open spec fn are_margins(
    logits: Tensor,
    ids: Seq<usize>,
    margins: Tensor,
    s: usize,
    v: usize,
) -> bool {
    &&& margins.full()
    &&& margins.shape == seq![s, v]
    &&& forall|i: int, u: int|
        0 <= i < s && 0 <= u < padded(v) ==> #[trigger] margins.get(at2(i, u)) == logits.get(
            at2(i, ids[i] as int),
        ) - logits.get(at2(i, u))
}

/// Every token is one of the largest logit of its row.
pub open spec fn are_largest(logits: Tensor, ids: Seq<usize>, s: usize, v: usize) -> bool {
    forall|i: int, u: int|
        0 <= i < s && 0 <= u < v ==> #[trigger] logits.get(at2(i, u)) <= logits.get(
            at2(i, ids[i] as int),
        )
}

/// The entries inside the shape are not negative.
pub open spec fn is_nonnegative(x: Tensor, s: usize, v: usize) -> bool {
    forall|i: int, u: int| 0 <= i < s && 0 <= u < v ==> #[trigger] x.get(at2(i, u)) >= 0
}

/// The check of the chosen tokens: the last node of the graph is a range check, is marked as one,
/// and reads an edge, which is given. It holds the margins of the chosen tokens, so that its
/// entries are not negative exactly if every token is one of the largest logit of its row; and
/// where the checks pass, it is.
pub proof fn lemma_argmax_check_run(
    g: Graph,
    logits: usize,
    s: usize,
    v: usize,
    ids: Seq<usize>,
    f: usize,
    run: Run,
) -> (e: usize)
    requires
        ready(g, 7),
        holds(g, logits, seq![s, v], f),
        selectable(s as nat, v as nat, ids),
        run.computes(g.argmax_check(logits, s, v, ids).0),
    ensures
        part(g, g.argmax_check(logits, s, v, ids).0),
        ({
            let h = g.argmax_check(logits, s, v, ids).0;
            let node = h.nodes.last();
            &&& h.nodes.len() > g.nodes.len()
            &&& node.op == Op::NonNegative(h.table_size_log)
            &&& node.inputs == seq![e]
            &&& h.range.last() == h.nodes.len() - 1
            &&& h.range.len() == g.range.len() + 1
            &&& run.passes(h) ==> run.in_range(e, h.table_size_log) && are_largest(
                run.on(logits),
                ids,
                s,
                v,
            )
        }),
        are_margins(run.on(logits), ids, run.on(e), s, v),
        is_nonnegative(run.on(e), s, v) <==> are_largest(run.on(logits), ids, s, v),
{
    broadcast use lemma_ready_less, group_step_part, lemma_part_run, lemma_holds_run;

    lemma_extends_self(g);
    lemma_need(g, selectable(s as nat, v as nat, ids));
    let value = one_hot_value(s, v, ids);
    let (g1, selector) = g.param(value);
    lemma_param_fits(g, value);
    lemma_next(g, g, g1, 0, 1);
    let (g2, selected) = g1.einsum("sv,sv->s"@, seq![logits, selector], false);
    lemma_sv_sv_s(s, v);
    lemma_binary_fits(g1, "sv,sv->s"@, logits, selector, seq![s, v], seq![s, v], f, 0, false);
    lemma_next(g, g1, g2, 1, 3);
    let (g3, column) = g2.change_shape(selected[0], seq![s, 1]);
    lemma_change_shape_fits(g2, selected[0], seq![s, 1]);
    lemma_next(g, g2, g3, 4, 1);
    let (g4, diffs) = g3.minus(column, logits);
    lemma_column(s, v);
    assert(broadcasted(seq![s, 1], seq![s, v]) =~= seq![s, v]);
    lemma_minus_fits(g3, column, logits, seq![s, 1], seq![s, v], f, f);
    lemma_next(g, g3, g4, 5, 1);
    let g5 = g4.nonneg(diffs[0]);
    assert(run.computes(g4) && run.computes(g3) && run.computes(g2) && run.computes(g1));
    assert(run.computes(g));
    lemma_part_more(g, g1, g2);
    lemma_part_more(g, g2, g3);
    lemma_part_more(g, g3, g4);
    lemma_part_more(g, g4, g5);
    lemma_selector_run(g, s, v, ids, run);
    let m = lemma_binary_run(
        g1,
        "sv,sv->s"@,
        logits,
        selector,
        seq![s, v],
        seq![s, v],
        f,
        0,
        false,
        run,
    );
    lemma_change_shape_run(g2, selected[0], seq![s, 1], run);
    lemma_minus_run(g3, column, logits, run);
    let (x, d) = (run.on(logits), run.on(diffs[0]));
    lemma_padded_one();
    lemma_dims(s, v);
    assert forall|i: int, u: int| 0 <= i < s && 0 <= u < padded(v) implies #[trigger] d.get(
        at2(i, u),
    ) == x.get(at2(i, ids[i] as int)) - x.get(at2(i, u)) by {
        lemma_two(s, v, i, u);
        assert(aligned(seq![s, v], at2(i, u)) =~= at2(i, u));
        assert(aligned(seq![s, 1], at2(i, u)) =~= at2(i, 0));
        lemma_two(s, 1, i, 0);
        lemma_sv_sv_s_sum(x, run.on(selector), m, s, v, i);
        lemma_places(seq![s], seq![i]);
        assert(run.on(column).get(at2(i, 0)) == m.get(seq![i]));
        let logit = |u: int| x.get(at2(i, u));
        lemma_one_hot_picks(s as nat, v as nat, ids, i, logit);
        let p = |cv: int| x.get(seq![i, cv]) * run.on(selector).get(seq![i, cv]);
        let q = |u: int|
            one_hot_table(s as nat, v as nat, ids)[i + u * pow2(ceil_log(s as nat as int))] * logit(
                u,
            );
        assert forall|u: int| 0 <= u < padded(v) implies #[trigger] p(u) == q(u) by {
            lemma_two(s, v, i, u);
            let (a, b) = (x.get(at2(i, u)), run.on(selector).get(at2(i, u)));
            assert(a * b == b * a) by (nonlinear_arith);
        }
        lemma_sum_ext(p, q, padded(v));
    }
    assert(is_nonnegative(d, s, v) <==> are_largest(x, ids, s, v)) by {
        if is_nonnegative(d, s, v) {
            assert forall|i: int, u: int| 0 <= i < s && 0 <= u < v implies #[trigger] x.get(
                at2(i, u),
            ) <= x.get(at2(i, ids[i] as int)) by {
                assert(d.get(at2(i, u)) >= 0);
            }
        }
        if are_largest(x, ids, s, v) {
            assert forall|i: int, u: int| 0 <= i < s && 0 <= u < v implies #[trigger] d.get(
                at2(i, u),
            ) >= 0 by {
                assert(x.get(at2(i, u)) <= x.get(at2(i, ids[i] as int)));
            }
        }
    }
    lemma_argmax_node(g, logits, s, v, ids, diffs[0]);
    if run.passes(g5) {
        lemma_nonneg_run(g4, diffs[0], run);
        assert(g4.table_size_log == g.table_size_log) by {
            reveal(extends);
        }
        assert forall|i: int, u: int| 0 <= i < s && 0 <= u < v implies #[trigger] d.get(at2(i, u))
            >= 0 by {
            lemma_two(s, v, i, u);
            lemma_place(seq![s, v], at2(i, u));
        }
    }
    diffs[0]
}

/// The last node of the check.
proof fn lemma_argmax_node(
    g: Graph,
    logits: usize,
    s: usize,
    v: usize,
    ids: Seq<usize>,
    e: usize,
)
    requires
        ready(g, 7),
        selectable(s as nat, v as nat, ids),
        ({
            let (g1, selector) = g.param(one_hot_value(s, v, ids));
            let (g2, selected) = g1.einsum("sv,sv->s"@, seq![logits, selector], false);
            let (g3, column) = g2.change_shape(selected[0], seq![s, 1]);
            let (g4, diffs) = g3.minus(column, logits);
            e == diffs[0]
        }),
    ensures
        ({
            let h = g.argmax_check(logits, s, v, ids).0;
            let node = h.nodes.last();
            &&& h.nodes.len() > g.nodes.len()
            &&& node.op == Op::NonNegative(h.table_size_log)
            &&& node.inputs == seq![e]
            &&& h.range.last() == h.nodes.len() - 1
            &&& h.range.len() == g.range.len() + 1
            &&& h.table_size_log == g.table_size_log
        }),
{
    reveal(ready);
    reveal(Graph::einsum);
    reveal(Graph::change_shape);
    reveal(Graph::minus);
    reveal(Graph::nonneg);
}

/// The rows of a matrix that tokens select: row `i` of the output is the row of the token of `i`.
pub open spec fn are_rows(w: Tensor, ids: Seq<usize>, out: Tensor, s: usize, n: usize) -> bool {
    &&& out.full()
    &&& forall|i: int, k: int|
        0 <= i < s && 0 <= k < padded(n) ==> #[trigger] out.get(at2(i, k)) == w.get(
            at2(ids[i] as int, k),
        )
}

/// Token embeddings: the rows of the embedding matrix for the tokens.
pub proof fn lemma_embedding_lookup_run(
    g: Graph,
    w_e: usize,
    s: usize,
    v: usize,
    ids: Seq<usize>,
    n: usize,
    f: usize,
    run: Run,
)
    requires
        ready(g, 4),
        holds(g, w_e, seq![v, n], f),
        selectable(s as nat, v as nat, ids),
        run.computes(g.embedding_lookup(w_e, s, v, ids).0),
    ensures
        part(g, g.embedding_lookup(w_e, s, v, ids).0),
        are_rows(run.on(w_e), ids, run.on(g.embedding_lookup(w_e, s, v, ids).1.0), s, n),
{
    broadcast use lemma_ready_less, group_step_part, lemma_part_run, lemma_holds_run;

    lemma_extends_self(g);
    lemma_need(g, selectable(s as nat, v as nat, ids));
    let value = one_hot_value(s, v, ids);
    let (g1, selector) = g.param(value);
    lemma_param_fits(g, value);
    lemma_next(g, g, g1, 0, 1);
    let (g2, out) = g1.einsum("sv,vd->sd"@, seq![selector, w_e], false);
    lemma_sv_vd_sd(s, v, n);
    assert(run.computes(g1) && run.computes(g));
    lemma_part_more(g, g1, g2);
    lemma_selector_run(g, s, v, ids, run);
    let m = lemma_binary_run(
        g1,
        "sv,vd->sd"@,
        selector,
        w_e,
        seq![s, v],
        seq![v, n],
        0,
        f,
        false,
        run,
    );
    lemma_dims(s, v);
    lemma_dims(n, n);
    lemma_sv_vd_sd_sum(run.on(selector), run.on(w_e), m, s, v, n, 0, 0);
    assert forall|i: int, k: int| 0 <= i < s && 0 <= k < padded(n) implies #[trigger] run.on(
        out[0],
    ).get(at2(i, k)) == run.on(w_e).get(at2(ids[i] as int, k)) by {
        lemma_sv_vd_sd_sum(run.on(selector), run.on(w_e), m, s, v, n, i, k);
        let column = |u: int| run.on(w_e).get(at2(u, k));
        lemma_one_hot_picks(s as nat, v as nat, ids, i, column);
        let p = |cv: int| run.on(selector).get(seq![i, cv]) * run.on(w_e).get(seq![cv, k]);
        let q = |u: int|
            one_hot_table(s as nat, v as nat, ids)[i + u * pow2(ceil_log(s as nat as int))]
                * column(u);
        assert forall|u: int| 0 <= u < padded(v) implies #[trigger] p(u) == q(u) by {
            lemma_two(s, v, i, u);
        }
        lemma_sum_ext(p, q, padded(v));
    }
}

} // verus!
