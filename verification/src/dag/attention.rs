//! What the attention of a graph computes.
use crate::arith::{lemma_signed, ln2_at, num_vars};
use crate::dag::entries::{
    addresses, interior, lemma_interior, lemma_place, lemma_places, padded, place, Tensor,
};
use crate::dag::exponential::{exp_value, lemma_exp_run, lemma_rescaled};
use crate::dag::fits::{
    computed, extends, holds, lemma_binary_fits, lemma_causal_mask_fits, lemma_change_shape_fits,
    lemma_exp_fits, lemma_extends_loose, lemma_extends_self, lemma_heads_fits, lemma_join_fits,
    lemma_need, lemma_next, lemma_param_fits, lemma_plus_fits, lemma_projections_fits,
    lemma_ready_less, lemma_rope_fits, lemma_same_shape, lemma_scalar_fits,
    lemma_softmax_const_fits, lemma_swap_pairs_fits, lemma_unary_fits, ready,
};
use crate::dag::graph::Graph;
use crate::dag::llama::{AttentionEdges, Rotary};
use crate::dag::mlps::{
    at2, at3, is_linear, lemma_dims, lemma_linear_run, lemma_sum_ends, linear, times,
};
use crate::dag::nanogpt::Heads;
use crate::dag::readings::{
    lemma_bhsd_bhtd_bhst, lemma_bhsd_bshd, lemma_bhst_bhtd_bhsd, lemma_bhst_z_bhst, lemma_bsdh_bshd,
    lemma_bshd_bhsd, lemma_bshd_bsdh, lemma_bshd_de_bshe, lemma_bshd_sd_bshd, lemma_bsi_ij_bsj,
};
use crate::dag::rotary::{causal_table, is_future, lemma_pair_swap, pair_swap, paired};
use crate::dag::run::{
    at_least, combined, group_step_part, lemma_binary_run, lemma_change_shape_run, lemma_holds_run,
    lemma_param_run, lemma_part_more, lemma_part_run, lemma_plus_run, lemma_rescaled_get,
    lemma_scalar_run, lemma_signed_small, lemma_softmax_const_run, lemma_unary_run, maximum, part,
    rescaled, row_of, Run,
};
use crate::dag::sums::{
    lemma_bhsd_bhtd_bhst_sum, lemma_bhsd_bshd_sum, lemma_bhst_bhtd_bhsd_sum, lemma_bhst_z_bhst_sum,
    lemma_bsdh_bshd_sum, lemma_bshd_bhsd_sum, lemma_bshd_bsdh_sum, lemma_bshd_de_bshe_sum,
    lemma_bshd_sd_bshd_sum, lemma_padded_one, lemma_same_combined,
};
use crate::math::{lemma_sum_ext, sum_to};
use crate::shape::{coordinate, inside};
use crate::witness::{dense_value, DataType, Role};
use vstd::arithmetic::power2::pow2;
use vstd::prelude::*;

verus! {

/// The coordinates of an entry of a tensor of four dimensions.
pub open spec fn at4(i: int, j: int, k: int, l: int) -> Seq<int> {
    seq![i, j, k, l]
}

/// Coordinates in a shape of four dimensions.
pub proof fn lemma_four(a: usize, b: usize, c: usize, d: usize, i: int, j: int, k: int, l: int)
    requires
        0 <= i < padded(a),
        0 <= j < padded(b),
        0 <= k < padded(c),
        0 <= l < padded(d),
    ensures
        addresses(seq![a, b, c, d], seq![i, j, k, l]),
        0 <= place(seq![a, b, c, d], seq![i, j, k, l]) < pow2(num_vars(seq![a, b, c, d])),
        interior(seq![a, b, c, d], seq![i, j, k, l]) == (i < a && j < b && k < c && l < d),
        inside(seq![a, b, c, d], place(seq![a, b, c, d], seq![i, j, k, l])) == (i < a && j < b && k
            < c && l < d),
{
    let (s, p) = (seq![a, b, c, d], seq![i, j, k, l]);
    assert(addresses(s, p));
    lemma_place(s, p);
    lemma_interior(s, p);
    if i < a && j < b && k < c && l < d {
        assert(interior(s, p));
    }
    if interior(s, p) {
        assert(p[0] < s[0] && p[1] < s[1] && p[2] < s[2] && p[3] < s[3]);
    }
}

/// The output holds the heads of the input: entry `a` of head `b` is column `a` of the `b`-th group
/// of columns.
pub open spec fn is_split(x: Tensor, out: Tensor, s: usize, h: usize, c: usize) -> bool {
    &&& out.full()
    &&& forall|i: int, b: int, a: int|
        0 <= i < padded(s) && 0 <= b < padded(h) && 0 <= a < padded(c) ==> #[trigger] out.get(
            at4(0, i, b, a),
        ) == x.get(at3(0, i, a + b * padded(c)))
}

/// The places of the entries of a head.
proof fn lemma_head_place(s: usize, h: usize, c: usize, n: usize, i: int, b: int, a: int)
    ensures
        place(seq![1, s, c, h], at4(0, i, a, b)) == place(
            seq![1, s, n],
            at3(0, i, a + b * padded(c)),
        ),
{
    lemma_padded_one();
    lemma_places(seq![1, s, c, h], at4(0, i, a, b));
    lemma_places(seq![1, s, n], at3(0, i, a + b * padded(c)));
    let (p, q) = (padded(s), padded(c));
    assert(a * p + b * (p * q) == (a + b * q) * p) by (nonlinear_arith);
    assert(1 * p == p);
    assert(1 * p * q == p * q);
}

/// The heads of a tensor.
pub proof fn lemma_heads_run(
    g: Graph,
    x: usize,
    s: usize,
    n: usize,
    h: usize,
    c: usize,
    f: usize,
    run: Run,
)
    requires
        ready(g, 4),
        holds(g, x, seq![1, s, n], f),
        c * h == n,
        run.computes(g.heads(x, seq![1, s, h, c]).0),
    ensures
        part(g, g.heads(x, seq![1, s, h, c]).0),
        is_split(run.on(x), run.on(g.heads(x, seq![1, s, h, c]).1), s, h, c),
{
    broadcast use lemma_ready_less, group_step_part, lemma_part_run, lemma_holds_run;

    reveal(Graph::heads);
    reveal(Graph::reshape);
    lemma_extends_self(g);
    let (old_shape, shape) = (seq![1, s, n], seq![1, s, h, c]);
    let middle = seq![1, s, c, h];
    lemma_need(g, g.known(x) && old_shape.len() >= 2);
    lemma_need(g, shape[3] * shape[2] == old_shape[2]);
    let (g1, y) = g.change_shape(x, middle);
    lemma_change_shape_fits(g, x, middle);
    lemma_next(g, g, g1, 0, 1);
    let (g2, out) = g1.einsum("bsdh->bshd"@, seq![y], false);
    lemma_bsdh_bshd(1, s, c, h);
    assert(run.computes(g1) && run.computes(g));
    lemma_part_more(g, g1, g2);
    lemma_change_shape_run(g, x, middle, run);
    lemma_unary_run(g1, "bsdh->bshd"@, y, middle, f, run);
    lemma_padded_one();
    lemma_dims(s, h);
    lemma_dims(c, c);
    lemma_bsdh_bshd_sum(run.on(y), run.on(out[0]), 1, s, c, h, 0, 0, 0, 0);
    assert forall|i: int, b: int, a: int|
        0 <= i < padded(s) && 0 <= b < padded(h) && 0 <= a < padded(c) implies #[trigger] run.on(
        out[0],
    ).get(at4(0, i, b, a)) == run.on(x).get(at3(0, i, a + b * padded(c))) by {
        lemma_bsdh_bshd_sum(run.on(y), run.on(out[0]), 1, s, c, h, 0, i, b, a);
        lemma_head_place(s, h, c, n, i, b, a);
    }
}

/// The output holds the heads of the input side by side.
pub open spec fn is_joined(x: Tensor, out: Tensor, s: usize, h: usize, c: usize) -> bool {
    forall|i: int, b: int, a: int|
        0 <= i < padded(s) && 0 <= b < padded(h) && 0 <= a < padded(c) ==> out.get(
            at3(0, i, a + b * padded(c)),
        ) == #[trigger] x.get(at4(0, i, b, a))
}

/// Heads side by side.
pub proof fn lemma_join_run(
    g: Graph,
    x: usize,
    s: usize,
    n: usize,
    h: usize,
    c: usize,
    f: usize,
    run: Run,
)
    requires
        ready(g, 4),
        holds(g, x, seq![1, s, h, c], f),
        n == c * h,
        run.computes(g.reshape(x, seq![1, s, n]).0),
    ensures
        part(g, g.reshape(x, seq![1, s, n]).0),
        is_joined(run.on(x), run.on(g.reshape(x, seq![1, s, n]).1[0]), s, h, c),
{
    broadcast use lemma_ready_less, group_step_part, lemma_part_run, lemma_holds_run;

    reveal(Graph::reshape);
    lemma_extends_self(g);
    let (old_shape, shape) = (seq![1, s, h, c], seq![1, s, n]);
    lemma_need(g, g.known(x) && old_shape.len() >= 2);
    lemma_need(g, shape.len() >= 1 && shape[2] == old_shape[3] * old_shape[2]);
    let (g1, o) = g.einsum("bshd->bsdh"@, seq![x], false);
    lemma_bshd_bsdh(1, s, h, c);
    lemma_unary_fits(g, "bshd->bsdh"@, x, old_shape, f);
    lemma_next(g, g, g1, 0, 3);
    let (g2, r) = g1.change_shape(o[0], shape);
    assert(run.computes(g1) && run.computes(g));
    lemma_part_more(g, g1, g2);
    lemma_unary_run(g, "bshd->bsdh"@, x, old_shape, f, run);
    lemma_change_shape_run(g1, o[0], shape, run);
    lemma_padded_one();
    assert forall|i: int, b: int, a: int|
        0 <= i < padded(s) && 0 <= b < padded(h) && 0 <= a < padded(c) implies run.on(r).get(
        at3(0, i, a + b * padded(c)),
    ) == #[trigger] run.on(x).get(at4(0, i, b, a)) by {
        lemma_bshd_bsdh_sum(run.on(x), run.on(o[0]), 1, s, h, c, 0, i, a, b);
        lemma_head_place(s, h, c, n, i, b, a);
    }
}

/// The output is the input with the middle dimensions swapped.
pub open spec fn is_swapped(x: Tensor, out: Tensor, s: usize, h: usize, c: usize) -> bool {
    &&& out.full()
    &&& forall|i: int, b: int, a: int|
        0 <= i < padded(s) && 0 <= b < padded(h) && 0 <= a < padded(c) ==> #[trigger] out.get(
            at4(0, b, i, a),
        ) == x.get(at4(0, i, b, a))
}

/// Heads first.
proof fn lemma_heads_first_run(
    g: Graph,
    x: usize,
    s: usize,
    h: usize,
    c: usize,
    f: usize,
    run: Run,
)
    requires
        ready(g, 3),
        holds(g, x, seq![1, s, h, c], f),
        run.computes(g.einsum("bshd->bhsd"@, seq![x], false).0),
    ensures
        is_swapped(run.on(x), run.on(g.einsum("bshd->bhsd"@, seq![x], false).1[0]), s, h, c),
{
    broadcast use lemma_ready_less, group_step_part, lemma_part_run, lemma_holds_run;

    let (g1, o) = g.einsum("bshd->bhsd"@, seq![x], false);
    assert(run.computes(g));
    lemma_bshd_bhsd(1, s, h, c);
    lemma_unary_run(g, "bshd->bhsd"@, x, seq![1, s, h, c], f, run);
    lemma_padded_one();
    lemma_dims(s, h);
    lemma_dims(c, c);
    lemma_bshd_bhsd_sum(run.on(x), run.on(o[0]), 1, s, h, c, 0, 0, 0, 0);
    assert forall|i: int, b: int, a: int|
        0 <= i < padded(s) && 0 <= b < padded(h) && 0 <= a < padded(c) implies #[trigger] run.on(
        o[0],
    ).get(at4(0, b, i, a)) == run.on(x).get(at4(0, i, b, a)) by {
        lemma_bshd_bhsd_sum(run.on(x), run.on(o[0]), 1, s, h, c, 0, b, i, a);
    }
}

/// The score of a key for a query in a head: their product, times the root, and less 1000 if the
/// key comes later.
pub open spec fn score(
    q: Tensor,
    k: Tensor,
    root: u32,
    c: usize,
    sf: usize,
    b: int,
    i: int,
    t: int,
) -> int {
    times(
        rescaled(
            sum_to(|a: int| q.get(at4(0, i, b, a)) * k.get(at4(0, t, b, a)), padded(c)),
            (q.sf + k.sf) as usize,
            q.sf,
        ),
        q.sf,
        root as int,
        sf,
    ) + if i < t {
        -1000 * pow2(q.sf as nat)
    } else {
        0
    }
}

/// The scores of all keys for a query in a head.
pub open spec fn scores(
    q: Tensor,
    k: Tensor,
    root: u32,
    s: usize,
    c: usize,
    sf: usize,
    b: int,
    i: int,
) -> Seq<int> {
    Seq::new(s as nat, |t: int| score(q, k, root, c, sf, b, i, t))
}

/// The weight of a key for a query in a head: the softmax of the scores, as the exponential of the
/// score less the largest one and the logarithm of the sum.
pub open spec fn weight(
    run: Run,
    q: Tensor,
    k: Tensor,
    root: u32,
    s: usize,
    c: usize,
    sf: usize,
    b: int,
    i: int,
    t: int,
) -> int {
    let row = scores(q, k, root, s, c, sf, b, i);
    exp_value(
        at_least(
            row[t] - (maximum(row) + (run.log_sum)(row, q.sf)),
            14 * ln2_at(q.sf as nat),
        ),
        sf,
    )
}

/// An entry of what a head gives for a query: the values of all positions by their weights.
pub open spec fn mixed(
    run: Run,
    q: Tensor,
    k: Tensor,
    v: Tensor,
    root: u32,
    s: usize,
    c: usize,
    sf: usize,
    b: int,
    i: int,
    a: int,
) -> int {
    rescaled(
        sum_to(
            |t: int| weight(run, q, k, root, s, c, sf, b, i, t) * v.get(at4(0, t, b, a)),
            s as int,
        ),
        (sf + v.sf) as usize,
        sf,
    )
}

/// A column of what the heads give for a query, side by side.
pub open spec fn side_by_side(
    run: Run,
    q: Tensor,
    k: Tensor,
    v: Tensor,
    root: u32,
    s: usize,
    h: usize,
    c: usize,
    sf: usize,
    i: int,
    u: int,
) -> int {
    if u / padded(c) < h {
        mixed(run, q, k, v, root, s, c, sf, u / padded(c), i, u % padded(c))
    } else {
        0
    }
}

/// The output is the attention of queries to keys and values: the product of what the heads give,
/// side by side, with the weights of the output.
pub open spec fn is_attention(
    run: Run,
    q: Tensor,
    k: Tensor,
    v: Tensor,
    w_o: Tensor,
    root: u32,
    out: Tensor,
    s: usize,
    h: usize,
    c: usize,
    n: usize,
    sf: usize,
) -> bool {
    &&& out.full()
    &&& forall|i: int, j: int|
        0 <= i < s && 0 <= j < padded(n) ==> #[trigger] out.get(at3(0, i, j)) == rescaled(
            sum_to(
                |u: int|
                    side_by_side(run, q, k, v, root, s, h, c, sf, i, u) * w_o.get(at2(u, j)),
                padded(n),
            ),
            (sf + w_o.sf) as usize,
            sf,
        )
}

/// The causal mask takes 1000 off the scores of later keys.
pub proof fn lemma_causal_mask_run(
    g: Graph,
    a: usize,
    seq_len: usize,
    shape: Seq<usize>,
    f: usize,
    run: Run,
)
    requires
        ready(g, 2),
        computed(g, a, shape, f),
        shape.len() >= 2,
        f <= 22,
        num_vars(shape) < usize::BITS,
        run.computes(g.causal_mask(a, seq_len).0),
    ensures
        part(g, g.causal_mask(a, seq_len).0),
        run.on(g.causal_mask(a, seq_len).1).full(),
        forall|p: int|
            0 <= p < pow2(num_vars(shape)) ==> #[trigger] run.on(
                g.causal_mask(a, seq_len).1,
            ).table[p] == run.on(a).table[p] + if is_future(shape, seq_len as nat, p) {
                -1000 * pow2(f as nat)
            } else {
                0
            },
{
    broadcast use lemma_ready_less, group_step_part, lemma_part_run, lemma_holds_run;

    reveal(Graph::causal_mask);
    lemma_extends_self(g);
    let table = causal_table(shape, seq_len as nat, f as nat);
    let value = dense_value(shape, table, DataType::Float, f, Role::Constant);
    lemma_need(g, g.known(a) && shape.len() >= 2 && f <= 22 && num_vars(shape) < usize::BITS);
    let (g1, mask) = g.param(value);
    lemma_param_fits(g, value);
    lemma_next(g, g, g1, 0, 1);
    let (g2, out) = g1.plus(a, mask);
    lemma_same_shape(shape);
    lemma_plus_fits(g1, a, mask, shape, shape, f, f);
    lemma_next(g, g1, g2, 1, 1);
    assert(run.computes(g1) && run.computes(g));
    lemma_part_more(g, g1, g2);
    lemma_param_run(g, value, run);
    lemma_plus_run(g1, a, mask, run);
    lemma_signed_small(0);
    crate::math::lemma_pow2_mono(f as nat, 22);
    vstd::arithmetic::power2::lemma2_to64();
    lemma_signed(-1000 * pow2(f as nat));
    assert forall|p: int| 0 <= p < pow2(num_vars(shape)) implies #[trigger] run.on(out[0]).table[p]
        == run.on(a).table[p] + if is_future(shape, seq_len as nat, p) {
        -1000 * pow2(f as nat)
    } else {
        0
    } by {
        lemma_same_combined(run.on(a), run.on(mask), run.on(out[0]), false, p);
    }
}

/// The scores of all heads.
pub open spec fn are_scores(
    q: Tensor,
    k: Tensor,
    root: u32,
    out: Tensor,
    s: usize,
    h: usize,
    c: usize,
    sf: usize,
) -> bool {
    forall|b: int, i: int, t: int|
        0 <= b < h && 0 <= i < s && 0 <= t < s ==> #[trigger] out.get(at4(0, b, i, t)) == score(
            q,
            k,
            root,
            c,
            sf,
            b,
            i,
            t,
        )
}

/// The weights of all heads.
pub open spec fn are_weights(
    run: Run,
    q: Tensor,
    k: Tensor,
    root: u32,
    out: Tensor,
    s: usize,
    h: usize,
    c: usize,
    sf: usize,
) -> bool {
    forall|b: int, i: int, t: int|
        0 <= b < padded(h) && 0 <= i < padded(s) && 0 <= t < padded(s) ==> #[trigger] out.get(
            at4(0, b, i, t),
        ) == if b < h && i < s && t < s {
            weight(run, q, k, root, s, c, sf, b, i, t)
        } else {
            0
        }
}

/// The steps from queries and keys to masked scores.
pub open spec fn masked_scores(g: Graph, q: usize, k: usize, root: usize, s: usize) -> (
    Graph,
    usize,
) {
    let (g, products) = g.einsum("bhsd,bhtd->bhst"@, seq![q, k], true);
    let (g, scaled) = g.einsum("bhst,z->bhst"@, seq![products[0], root], true);
    if s > 1 {
        g.causal_mask(scaled[0], s)
    } else {
        (g, scaled[0])
    }
}

/// The scores: the products of queries and keys, times the root, and the mask.
proof fn lemma_scores_run(
    g: Graph,
    q: usize,
    k: usize,
    first: (Tensor, Tensor),
    root: u32,
    root_edge: usize,
    s: usize,
    h: usize,
    c: usize,
    f: usize,
    run: Run,
)
    requires
        ready(g, 8),
        holds(g, q, seq![1, h, s, c], f),
        holds(g, k, seq![1, h, s, c], f),
        holds(g, root_edge, seq![1usize], g.sf_log),
        run.on(root_edge).table == seq![root as int],
        is_swapped(first.0, run.on(q), s, h, c),
        is_swapped(first.1, run.on(k), s, h, c),
        first.0.sf == f,
        first.1.sf == f,
        num_vars(seq![1, h, s, s]) < usize::BITS,
        g.sf_log < 32,
        f <= 22,
        run.computes(masked_scores(g, q, k, root_edge, s).0),
    ensures
        extends(g, masked_scores(g, q, k, root_edge, s).0, 8),
        part(g, masked_scores(g, q, k, root_edge, s).0),
        computed(
            masked_scores(g, q, k, root_edge, s).0,
            masked_scores(g, q, k, root_edge, s).1,
            seq![1, h, s, s],
            f,
        ),
        are_scores(
            first.0,
            first.1,
            root,
            run.on(masked_scores(g, q, k, root_edge, s).1),
            s,
            h,
            c,
            g.sf_log,
        ),
{
    broadcast use lemma_ready_less, group_step_part, lemma_part_run, lemma_holds_run;

    lemma_extends_self(g);
    let sf = g.sf_log;
    let head = seq![1, h, s, c];
    let square = seq![1, h, s, s];
    let (g1, products) = g.einsum("bhsd,bhtd->bhst"@, seq![q, k], true);
    lemma_bhsd_bhtd_bhst(1, h, s, c, s);
    lemma_binary_fits(g, "bhsd,bhtd->bhst"@, q, k, head, head, f, f, true);
    lemma_next(g, g, g1, 0, 3);
    let (g2, scaled) = g1.einsum("bhst,z->bhst"@, seq![products[0], root_edge], true);
    lemma_bhst_z_bhst(1, h, s, s, 1);
    lemma_binary_fits(
        g1,
        "bhst,z->bhst"@,
        products[0],
        root_edge,
        square,
        seq![1usize],
        f,
        sf,
        true,
    );
    lemma_next(g, g1, g2, 3, 3);
    let (g3, out) = masked_scores(g, q, k, root_edge, s);
    lemma_part_more(g, g1, g2);
    if s > 1 {
        lemma_causal_mask_fits(g2, scaled[0], s, square, f);
        lemma_next(g, g2, g3, 6, 2);
        lemma_causal_mask_run(g2, scaled[0], s, square, f, run);
        lemma_part_more(g, g2, g3);
    } else {
        lemma_extends_loose(g, g2, 6, 8);
    }
    assert(run.computes(g2) && run.computes(g1) && run.computes(g));
    let x = lemma_binary_run(g, "bhsd,bhtd->bhst"@, q, k, head, head, f, f, true, run);
    let y = lemma_binary_run(
        g1,
        "bhst,z->bhst"@,
        products[0],
        root_edge,
        square,
        seq![1usize],
        f,
        sf,
        true,
        run,
    );
    lemma_padded_one();
    lemma_dims(s, h);
    lemma_dims(c, c);
    assert forall|b: int, i: int, t: int|
        0 <= b < h && 0 <= i < s && 0 <= t < s implies #[trigger] run.on(out).get(at4(0, b, i, t))
        == score(first.0, first.1, root, c, sf, b, i, t) by {
        lemma_four(1, h, s, s, 0, b, i, t);
        lemma_bhsd_bhtd_bhst_sum(run.on(q), run.on(k), x, 1, h, s, c, s, 0, b, i, t);
        lemma_rescaled_get(x, (f + f) as usize, f, at4(0, b, i, t));
        let p = |cd: int| run.on(q).get(seq![0, b, i, cd]) * run.on(k).get(seq![0, b, t, cd]);
        let r = |a: int| first.0.get(at4(0, i, b, a)) * first.1.get(at4(0, t, b, a));
        assert forall|a: int| 0 <= a < padded(c) implies #[trigger] p(a) == r(a) by {
            assert(run.on(q).get(at4(0, b, i, a)) == first.0.get(at4(0, i, b, a)));
            assert(run.on(k).get(at4(0, b, t, a)) == first.1.get(at4(0, t, b, a)));
        }
        lemma_sum_ext(p, r, padded(c));
        lemma_bhst_z_bhst_sum(run.on(products[0]), run.on(root_edge), y, 1, h, s, s, 0, b, i, t);
        lemma_rescaled_get(y, (f + sf) as usize, f, at4(0, b, i, t));
        lemma_places(seq![1usize], seq![0int]);
        let place = place(square, at4(0, b, i, t));
        lemma_place(square, at4(0, b, i, t));
        assert(coordinate(square, place, 2) == i);
        assert(coordinate(square, place, 3) == t);
    }
}

/// Attention of queries to keys and values.
pub proof fn lemma_attend_run(
    g: Graph,
    parts: (usize, usize, usize),
    w_o: usize,
    root: u32,
    s: usize,
    h: usize,
    c: usize,
    n: usize,
    f: usize,
    d: usize,
    run: Run,
)
    requires
        ready(g, 77),
        holds(g, parts.0, seq![1, s, h, c], f),
        holds(g, parts.1, seq![1, s, h, c], f),
        holds(g, parts.2, seq![1, s, h, c], f),
        holds(g, w_o, seq![n, n], d),
        n == c * h,
        num_vars(seq![1, h, s, s]) < usize::BITS,
        g.sf_log < 32,
        f <= 22,
        d < 60,
        run.computes(g.attend(parts, w_o, root, s, n).0),
        run.honest,
    ensures
        part(g, g.attend(parts, w_o, root, s, n).0),
        is_attention(
            run,
            run.on(parts.0),
            run.on(parts.1),
            run.on(parts.2),
            run.on(w_o),
            root,
            run.on(g.attend(parts, w_o, root, s, n).1[0]),
            s,
            h,
            c,
            n,
            g.sf_log,
        ),
{
    broadcast use lemma_ready_less, group_step_part, lemma_part_run, lemma_holds_run;

    reveal(Graph::attend);
    lemma_extends_self(g);
    let sf = g.sf_log;
    let by_position_shape = seq![1, s, h, c];
    let head = seq![1, h, s, c];
    let square = seq![1, h, s, s];
    let (qs, ks, vs) = (run.on(parts.0), run.on(parts.1), run.on(parts.2));
    let (g1, q) = g.einsum("bshd->bhsd"@, seq![parts.0], false);
    lemma_bshd_bhsd(1, s, h, c);
    lemma_unary_fits(g, "bshd->bhsd"@, parts.0, by_position_shape, f);
    lemma_next(g, g, g1, 0, 3);
    let (g2, k) = g1.einsum("bshd->bhsd"@, seq![parts.1], false);
    lemma_unary_fits(g1, "bshd->bhsd"@, parts.1, by_position_shape, f);
    lemma_next(g, g1, g2, 3, 3);
    let (g3, v) = g2.einsum("bshd->bhsd"@, seq![parts.2], false);
    lemma_unary_fits(g2, "bshd->bhsd"@, parts.2, by_position_shape, f);
    lemma_next(g, g2, g3, 6, 3);
    let (g4, root_edge) = g3.scalar(root as u64, sf);
    lemma_scalar_fits(g3, root as u64, sf);
    lemma_next(g, g3, g4, 9, 1);
    let (g5, masked) = masked_scores(g4, q[0], k[0], root_edge, s);
    let (g6, shift) = g5.softmax_const(masked);
    let (g7, shifted) = g6.plus(masked, shift[0]);
    let (g8, weights) = g7.exp(shifted[0]);
    let (g9, mixture) = g8.einsum("bhst,bhtd->bhsd"@, seq![weights[0], v[0]], true);
    let (g10, by_position) = g9.einsum("bhsd->bshd"@, seq![mixture[0]], false);
    let (g11, joined) = g10.reshape(by_position[0], seq![1, s, n]);
    let (g12, out) = g11.einsum("bsi,ij->bsj"@, seq![joined[0], w_o], true);
    assert((g12, seq![out[0]]) == g.attend(parts, w_o, root, s, n));
    lemma_scores_shape(g4, q[0], k[0], root_edge, s, h, c, f);
    lemma_next(g, g4, g5, 10, 8);
    lemma_softmax_const_fits(g5, masked);
    lemma_next(g, g5, g6, 18, 1);
    lemma_same_shape(square);
    lemma_plus_fits(g6, masked, shift[0], square, square, f, f);
    lemma_next(g, g6, g7, 19, 1);
    lemma_exp_fits(g7, shifted[0], square, f);
    lemma_next(g, g7, g8, 20, 44);
    lemma_bhst_bhtd_bhsd(1, h, s, s, c);
    lemma_binary_fits(g8, "bhst,bhtd->bhsd"@, weights[0], v[0], square, head, sf, f, true);
    lemma_next(g, g8, g9, 64, 3);
    lemma_bhsd_bshd(1, h, s, c);
    lemma_unary_fits(g9, "bhsd->bshd"@, mixture[0], head, sf);
    lemma_next(g, g9, g10, 67, 3);
    lemma_join_fits(g10, by_position[0], 1, s, h, c, n, sf);
    lemma_next(g, g10, g11, 70, 4);
    lemma_bsi_ij_bsj(1, s, n, n);
    assert(run.computes(g11));
    lemma_join_run(g10, by_position[0], s, n, h, c, sf, run);
    assert(run.computes(g10) && run.computes(g9) && run.computes(g8));
    lemma_exp_run(g7, shifted[0], square, f, run);
    assert(run.computes(g7) && run.computes(g6) && run.computes(g5));
    lemma_scores_part(g4, q[0], k[0], root_edge, s);
    assert(run.computes(g4) && run.computes(g3) && run.computes(g2) && run.computes(g1));
    assert(run.computes(g));
    assert(part(g, g12)) by {
        lemma_part_more(g, g1, g2);
        lemma_part_more(g, g2, g3);
        lemma_part_more(g, g3, g4);
        lemma_part_more(g, g4, g5);
        lemma_part_more(g, g5, g6);
        lemma_part_more(g, g6, g7);
        lemma_part_more(g, g7, g8);
        lemma_part_more(g, g8, g9);
        lemma_part_more(g, g9, g10);
        lemma_part_more(g, g10, g11);
        lemma_part_more(g, g11, g12);
    }
    lemma_heads_first_run(g, parts.0, s, h, c, f, run);
    lemma_heads_first_run(g1, parts.1, s, h, c, f, run);
    lemma_heads_first_run(g2, parts.2, s, h, c, f, run);
    lemma_scalar_run(g3, root as u64, sf, run);
    lemma_scores_run(g4, q[0], k[0], (qs, ks), root, root_edge, s, h, c, f, run);
    lemma_softmax_const_run(g5, masked, run);
    lemma_plus_run(g6, masked, shift[0], run);
    lemma_weights(
        run,
        qs,
        ks,
        root,
        run.on(masked),
        run.on(shift[0]),
        run.on(shifted[0]),
        run.on(weights[0]),
        s,
        h,
        c,
        sf,
    );
    let mix = lemma_binary_run(
        g8,
        "bhst,bhtd->bhsd"@,
        weights[0],
        v[0],
        square,
        head,
        sf,
        f,
        true,
        run,
    );
    lemma_unary_run(g9, "bhsd->bshd"@, mixture[0], head, sf, run);
    lemma_linear_run(g11, joined[0], w_o, s, n, n, sf, d, run);
    lemma_padded_one();
    lemma_dims(s, h);
    lemma_dims(c, n);
    assert forall|i: int, j: int| 0 <= i < s && 0 <= j < padded(n) implies #[trigger] run.on(
        out[0],
    ).get(at3(0, i, j)) == rescaled(
        sum_to(
            |u: int|
                side_by_side(run, qs, ks, vs, root, s, h, c, sf, i, u) * run.on(w_o).get(at2(u, j)),
            padded(n),
        ),
        (sf + d) as usize,
        sf,
    ) by {
        let p = |u: int| run.on(joined[0]).get(at3(0, i, u)) * run.on(w_o).get(at2(u, j));
        let r = |u: int|
            side_by_side(run, qs, ks, vs, root, s, h, c, sf, i, u) * run.on(w_o).get(at2(u, j));
        assert forall|u: int| 0 <= u < padded(n) implies #[trigger] p(u) == r(u) by {
            let (b, a) = (u / padded(c), u % padded(c));
            lemma_column_parts(h, c, n, u);
            assert(run.on(joined[0]).get(at3(0, i, u)) == run.on(by_position[0]).get(
                at4(0, i, b, a),
            ));
            lemma_bhsd_bshd_sum(
                run.on(mixture[0]),
                run.on(by_position[0]),
                1,
                h,
                s,
                c,
                0,
                i,
                b,
                a,
            );
            lemma_four(1, h, s, c, 0, b, i, a);
            lemma_bhst_bhtd_bhsd_sum(
                run.on(weights[0]),
                run.on(v[0]),
                mix,
                1,
                h,
                s,
                s,
                c,
                0,
                b,
                i,
                a,
            );
            lemma_rescaled_get(mix, (sf + f) as usize, sf, at4(0, b, i, a));
            let (x, y) = (run.on(weights[0]), run.on(v[0]));
            lemma_mixture(run, qs, ks, vs, root, x, y, s, h, c, sf, b, i, a);
        }
        lemma_sum_ext(p, r, padded(n));
    }
}

/// The parts of a column: its head and its place in it.
proof fn lemma_column_parts(h: usize, c: usize, n: usize, u: int)
    requires
        n == c * h,
        0 <= u < padded(n),
    ensures
        0 <= u / padded(c) < padded(h),
        0 <= u % padded(c) < padded(c),
        u == u % padded(c) + (u / padded(c)) * padded(c),
{
    lemma_dims(c, h);
    let (p, q) = (padded(c), padded(h));
    let (a, b) = (crate::arith::ceil_log(c as int), crate::arith::ceil_log(h as int));
    vstd::arithmetic::power2::lemma_pow2_adds(a, b);
    assert(c * h <= p * q) by (nonlinear_arith)
        requires
            0 <= c <= p,
            0 <= h <= q,
    ;
    assert(padded(n) <= p * q) by {
        let k = crate::arith::ceil_log(n as int);
        crate::arith::lemma_ceil_log(n as int);
        crate::math::lemma_pow2_small();
        if k > a + b {
            assert(n > 1);
            crate::math::lemma_pow2_mono(a + b, (k - 1) as nat);
        } else {
            crate::math::lemma_pow2_mono(k, a + b);
        }
    }
    crate::math::lemma_div_mod(u, p);
    let d = u / p;
    assert(d < q) by (nonlinear_arith)
        requires
            u == d * p + u % p,
            0 <= u % p,
            u < p * q,
            p > 0,
    ;
    assert(d >= 0) by (nonlinear_arith)
        requires
            u == d * p + u % p,
            u % p < p,
            u >= 0,
            p > 0,
    ;
}

/// From scores to weights.
proof fn lemma_weights(
    run: Run,
    q: Tensor,
    k: Tensor,
    root: u32,
    masked: Tensor,
    shift: Tensor,
    shifted: Tensor,
    weights: Tensor,
    s: usize,
    h: usize,
    c: usize,
    sf: usize,
)
    requires
        ({
            let square = seq![1, h, s, s];
            &&& masked.shape == square
            &&& masked.sf == q.sf
            &&& shift.shape == square
            &&& shifted.shape == square
            &&& weights.shape == square
            &&& are_scores(q, k, root, masked, s, h, c, sf)
            &&& forall|x: Seq<int>| #[trigger]
                interior(square, x) ==> shift.get(x) == -(maximum(row_of(masked, x, s)) + (
                run.log_sum)(row_of(masked, x, s), q.sf))
            &&& combined(masked, shift, shifted, false)
            &&& forall|p: int|
                0 <= p < pow2(num_vars(square)) ==> #[trigger] weights.table[p] == if inside(
                    square,
                    p,
                ) {
                    exp_value(at_least(shifted.table[p], 14 * ln2_at(q.sf as nat)), sf)
                } else {
                    0
                }
        }),
    ensures
        are_weights(run, q, k, root, weights, s, h, c, sf),
{
    let square = seq![1, h, s, s];
    lemma_padded_one();
    assert forall|b: int, i: int, t: int|
        0 <= b < padded(h) && 0 <= i < padded(s) && 0 <= t < padded(
            s,
        ) implies #[trigger] weights.get(at4(0, b, i, t)) == if b < h && i < s && t < s {
        weight(run, q, k, root, s, c, sf, b, i, t)
    } else {
        0
    } by {
        lemma_four(1, h, s, s, 0, b, i, t);
        let x = at4(0, b, i, t);
        if b < h && i < s && t < s {
            lemma_same_combined(masked, shift, shifted, false, place(square, x));
            let row = scores(q, k, root, s, c, sf, b, i);
            assert(interior(square, x));
            assert(row_of(masked, x, s) =~= row) by {
                assert forall|y: int| 0 <= y < s implies row_of(masked, x, s)[y] == row[y] by {
                    assert(x.update(3, y) =~= at4(0, b, i, y));
                }
            }
            assert(masked.get(x) == row[t]);
        }
    }
}

/// From weights to what a head gives.
proof fn lemma_mixture(
    run: Run,
    q: Tensor,
    k: Tensor,
    v: Tensor,
    root: u32,
    weights: Tensor,
    first: Tensor,
    s: usize,
    h: usize,
    c: usize,
    sf: usize,
    b: int,
    i: int,
    a: int,
)
    requires
        are_weights(run, q, k, root, weights, s, h, c, sf),
        is_swapped(v, first, s, h, c),
        0 <= b < padded(h),
        0 <= i < s,
        0 <= a < padded(c),
    ensures
        rescaled(
            sum_to(
                |ct: int| weights.get(seq![0, b, i, ct]) * first.get(seq![0, b, ct, a]),
                padded(s),
            ),
            (sf + v.sf) as usize,
            sf,
        ) == if b < h {
            mixed(run, q, k, v, root, s, c, sf, b, i, a)
        } else {
            0
        },
{
    lemma_dims(s, h);
    let p = |ct: int| weights.get(seq![0, b, i, ct]) * first.get(seq![0, b, ct, a]);
    let r = |t: int| weight(run, q, k, root, s, c, sf, b, i, t) * v.get(at4(0, t, b, a));
    assert forall|t: int| 0 <= t < padded(s) implies #[trigger] p(t) == if b < h && t < s {
        r(t)
    } else {
        0
    } by {
        assert(first.get(at4(0, b, t, a)) == v.get(at4(0, t, b, a)));
        assert(weights.get(at4(0, b, i, t)) == if b < h && t < s {
            weight(run, q, k, root, s, c, sf, b, i, t)
        } else {
            0
        });
        assert(0 * first.get(at4(0, b, t, a)) == 0);
    }
    lemma_sum_ends(p, s as int, padded(s));
    if b < h {
        lemma_sum_ext(p, r, s as int);
    } else {
        crate::math::lemma_sum_zero(p, s as int);
        lemma_rescaled(0, (sf + v.sf) as usize, sf);
    }
}

/// The steps to the scores leave what was there as it was.
proof fn lemma_scores_part(g: Graph, q: usize, k: usize, root: usize, s: usize)
    ensures
        part(g, masked_scores(g, q, k, root, s).0),
{
    broadcast use group_step_part;

    let (g1, products) = g.einsum("bhsd,bhtd->bhst"@, seq![q, k], true);
    let (g2, scaled) = g1.einsum("bhst,z->bhst"@, seq![products[0], root], true);
    lemma_part_more(g, g1, g2);
    let (g3, out) = masked_scores(g, q, k, root, s);
    if s > 1 {
        reveal(Graph::causal_mask);
        reveal(part);
        reveal(Graph::plus);
    }
}

/// The shape of the scores.
proof fn lemma_scores_shape(
    g: Graph,
    q: usize,
    k: usize,
    root: usize,
    s: usize,
    h: usize,
    c: usize,
    f: usize,
)
    requires
        ready(g, 8),
        holds(g, q, seq![1, h, s, c], f),
        holds(g, k, seq![1, h, s, c], f),
        holds(g, root, seq![1usize], g.sf_log),
        num_vars(seq![1, h, s, s]) < usize::BITS,
        g.sf_log < 32,
        f <= 22,
    ensures
        extends(g, masked_scores(g, q, k, root, s).0, 8),
        computed(
            masked_scores(g, q, k, root, s).0,
            masked_scores(g, q, k, root, s).1,
            seq![1, h, s, s],
            f,
        ),
{
    broadcast use lemma_ready_less;

    lemma_extends_self(g);
    let head = seq![1, h, s, c];
    let square = seq![1, h, s, s];
    let (g1, products) = g.einsum("bhsd,bhtd->bhst"@, seq![q, k], true);
    lemma_bhsd_bhtd_bhst(1, h, s, c, s);
    lemma_binary_fits(g, "bhsd,bhtd->bhst"@, q, k, head, head, f, f, true);
    lemma_next(g, g, g1, 0, 3);
    let (g2, scaled) = g1.einsum("bhst,z->bhst"@, seq![products[0], root], true);
    lemma_bhst_z_bhst(1, h, s, s, 1);
    lemma_binary_fits(
        g1,
        "bhst,z->bhst"@,
        products[0],
        root,
        square,
        seq![1usize],
        f,
        g.sf_log,
        true,
    );
    lemma_next(g, g1, g2, 3, 3);
    if s > 1 {
        lemma_causal_mask_fits(g2, scaled[0], s, square, f);
        lemma_next(g, g2, masked_scores(g, q, k, root, s).0, 6, 2);
    } else {
        lemma_extends_loose(g, g2, 6, 8);
    }
}

/// The output holds the heads of the product of a tensor with weights: entry `a` of head `b` is
/// column `a` of the `b`-th group of columns of the product.
pub open spec fn is_projection(
    x: Tensor,
    w: Tensor,
    out: Tensor,
    s: usize,
    h: usize,
    c: usize,
    n: usize,
) -> bool {
    forall|i: int, b: int, a: int|
        0 <= i < padded(s) && 0 <= b < padded(h) && 0 <= a < padded(c) && a + b * padded(c)
            < padded(n) ==> #[trigger] out.get(at4(0, i, b, a)) == linear(
            x,
            w,
            i,
            a + b * padded(c),
            n,
        )
}

/// The heads of a product.
proof fn lemma_projection(
    x: Tensor,
    w: Tensor,
    product: Tensor,
    out: Tensor,
    s: usize,
    h: usize,
    c: usize,
    n: usize,
)
    requires
        is_linear(x, w, product, s, n, n),
        is_split(product, out, s, h, c),
    ensures
        is_projection(x, w, out, s, h, c, n),
{
    lemma_dims(c, c);
    assert forall|i: int, b: int, a: int|
        0 <= i < padded(s) && 0 <= b < padded(h) && 0 <= a < padded(c) && a + b * padded(c)
            < padded(n) implies #[trigger] out.get(at4(0, i, b, a)) == linear(
        x,
        w,
        i,
        a + b * padded(c),
        n,
    ) by {
        let (p, u) = (padded(c), a + b * padded(c));
        assert(b * p >= 0) by (nonlinear_arith)
            requires
                b >= 0,
                p > 0,
        ;
        assert(product.get(at3(0, i, u)) == linear(x, w, i, u, n));
    }
}

/// The queries, keys and values: the heads of the products of the input with their weights.
pub proof fn lemma_projections_run(
    g: Graph,
    x: usize,
    w: AttentionEdges,
    s: usize,
    n: usize,
    h: usize,
    c: usize,
    f: usize,
    d: usize,
    run: Run,
)
    requires
        ready(g, 21),
        holds(g, x, seq![1, s, n], f),
        holds(g, w.q, seq![n, n], d),
        holds(g, w.k, seq![n, n], d),
        holds(g, w.v, seq![n, n], d),
        c * h == n,
        f < 60,
        d < 60,
        run.computes(g.projections(x, w, seq![1, s, h, c]).0),
    ensures
        part(g, g.projections(x, w, seq![1, s, h, c]).0),
        ({
            let parts = g.projections(x, w, seq![1, s, h, c]).1;
            &&& is_projection(run.on(x), run.on(w.q), run.on(parts.0), s, h, c, n)
            &&& is_projection(run.on(x), run.on(w.k), run.on(parts.1), s, h, c, n)
            &&& is_projection(run.on(x), run.on(w.v), run.on(parts.2), s, h, c, n)
        }),
{
    broadcast use lemma_ready_less, group_step_part, lemma_part_run, lemma_holds_run;

    reveal(Graph::projections);
    lemma_extends_self(g);
    let shape = seq![1, s, h, c];
    let e = "bsi,ij->bsj"@;
    let (g1, q) = g.einsum(e, seq![x, w.q], true);
    lemma_bsi_ij_bsj(1, s, n, n);
    lemma_binary_fits(g, e, x, w.q, seq![1, s, n], seq![n, n], f, d, true);
    lemma_next(g, g, g1, 0, 3);
    let (g2, k) = g1.einsum(e, seq![x, w.k], true);
    lemma_binary_fits(g1, e, x, w.k, seq![1, s, n], seq![n, n], f, d, true);
    lemma_next(g, g1, g2, 3, 3);
    let (g3, v) = g2.einsum(e, seq![x, w.v], true);
    lemma_binary_fits(g2, e, x, w.v, seq![1, s, n], seq![n, n], f, d, true);
    lemma_next(g, g2, g3, 6, 3);
    let (g4, q_heads) = g3.heads(q[0], shape);
    lemma_heads_fits(g3, q[0], s, n, h, c, f);
    lemma_next(g, g3, g4, 9, 4);
    let (g5, k_heads) = g4.heads(k[0], shape);
    lemma_heads_fits(g4, k[0], s, n, h, c, f);
    lemma_next(g, g4, g5, 13, 4);
    let (g6, v_heads) = g5.heads(v[0], shape);
    lemma_heads_run(g5, v[0], s, n, h, c, f, run);
    assert(run.computes(g5));
    lemma_heads_run(g4, k[0], s, n, h, c, f, run);
    assert(run.computes(g4));
    lemma_heads_run(g3, q[0], s, n, h, c, f, run);
    assert(run.computes(g3) && run.computes(g2) && run.computes(g1) && run.computes(g));
    lemma_part_more(g, g1, g2);
    lemma_part_more(g, g2, g3);
    lemma_part_more(g, g3, g4);
    lemma_part_more(g, g4, g5);
    lemma_part_more(g, g5, g6);
    lemma_linear_run(g, x, w.q, s, n, n, f, d, run);
    lemma_linear_run(g1, x, w.k, s, n, n, f, d, run);
    lemma_linear_run(g2, x, w.v, s, n, n, f, d, run);
    lemma_projection(run.on(x), run.on(w.q), run.on(q[0]), run.on(q_heads), s, h, c, n);
    lemma_projection(run.on(x), run.on(w.k), run.on(k[0]), run.on(k_heads), s, h, c, n);
    lemma_projection(run.on(x), run.on(w.v), run.on(v[0]), run.on(v_heads), s, h, c, n);
}

/// Attention without position embedding: the queries, keys and values, which are given, are the
/// heads of the products of the input with their weights.
pub proof fn lemma_plain_attention_run(
    g: Graph,
    x: usize,
    w: AttentionEdges,
    p: Heads,
    n: usize,
    f: usize,
    d: usize,
    run: Run,
) -> (r: (Tensor, Tensor, Tensor))
    requires
        ready(g, 98),
        holds(g, x, seq![1, p.seq_len, n], f),
        holds(g, w.q, seq![n, n], d),
        holds(g, w.k, seq![n, n], d),
        holds(g, w.v, seq![n, n], d),
        holds(g, w.o, seq![n, n], d),
        n == p.n_head * p.head_dim,
        num_vars(seq![1, p.n_head, p.seq_len, p.seq_len]) < usize::BITS,
        g.sf_log < 32,
        f <= 22,
        d < 60,
        run.computes(g.plain_attention(x, w, p).0),
        run.honest,
    ensures
        part(g, g.plain_attention(x, w, p).0),
        r.0.sf == f,
        r.1.sf == f,
        r.2.sf == f,
        is_projection(run.on(x), run.on(w.q), r.0, p.seq_len, p.n_head, p.head_dim, n),
        is_projection(run.on(x), run.on(w.k), r.1, p.seq_len, p.n_head, p.head_dim, n),
        is_projection(run.on(x), run.on(w.v), r.2, p.seq_len, p.n_head, p.head_dim, n),
        is_attention(
            run,
            r.0,
            r.1,
            r.2,
            run.on(w.o),
            p.root,
            run.on(g.plain_attention(x, w, p).1[0]),
            p.seq_len,
            p.n_head,
            p.head_dim,
            n,
            g.sf_log,
        ),
{
    broadcast use lemma_ready_less, lemma_part_run, lemma_holds_run;

    reveal(Graph::plain_attention);
    lemma_extends_self(g);
    let (s, h, c) = (p.seq_len, p.n_head, p.head_dim);
    lemma_need(g, p.n_head * p.head_dim <= usize::MAX);
    assert(c * h == n) by (nonlinear_arith)
        requires
            n == h * c,
    ;
    let (g1, parts) = g.projections(x, w, seq![1, s, h, c]);
    lemma_projections_fits(g, x, w, s, n, h, c, f, d);
    lemma_next(g, g, g1, 0, 21);
    let (g2, out) = g1.attend(parts, w.o, p.root, s, n);
    lemma_attend_run(g1, parts, w.o, p.root, s, h, c, n, f, d, run);
    assert(run.computes(g1));
    lemma_projections_run(g, x, w, s, n, h, c, f, d, run);
    lemma_part_more(g, g1, g2);
    (run.on(parts.0), run.on(parts.1), run.on(parts.2))
}

/// The output is the input with the pairs of each head rotated: by the cosine times an entry and
/// the sine times the other one of its pair.
pub open spec fn is_rotated(
    x: Tensor,
    cos: Tensor,
    sin: Tensor,
    out: Tensor,
    s: usize,
    h: usize,
    c: usize,
) -> bool {
    forall|i: int, b: int, a: int|
        0 <= i < padded(s) && 0 <= b < padded(h) && 0 <= a < c ==> #[trigger] out.get(
            at4(0, i, b, a),
        ) == times(x.get(at4(0, i, b, paired(a))), x.sf, sin.get(at2(i, a)), sin.sf) + times(
            x.get(at4(0, i, b, a)),
            x.sf,
            cos.get(at2(i, a)),
            cos.sf,
        )
}

/// The entries of each pair are swapped.
pub open spec fn has_pairs_swapped(x: Tensor, out: Tensor, s: usize, h: usize, c: usize) -> bool {
    &&& out.full()
    &&& forall|i: int, b: int, a: int|
        0 <= i < padded(s) && 0 <= b < padded(h) && 0 <= a < c ==> #[trigger] out.get(
            at4(0, i, b, a),
        ) == x.get(at4(0, i, b, paired(a)))
}

/// The swap of pairs, for heads whose width is a power of two.
pub proof fn lemma_swap_pairs_run(
    g: Graph,
    x: usize,
    s: usize,
    h: usize,
    c: usize,
    f: usize,
    run: Run,
)
    requires
        ready(g, 4),
        holds(g, x, seq![1, s, h, c], f),
        c % 2 == 0,
        c * c <= usize::MAX,
        padded(c) == c,
        run.computes(g.swap_pairs(x).0),
    ensures
        part(g, g.swap_pairs(x).0),
        has_pairs_swapped(run.on(x), run.on(g.swap_pairs(x).1[0]), s, h, c),
{
    broadcast use lemma_ready_less, group_step_part, lemma_part_run, lemma_holds_run;

    reveal(Graph::swap_pairs);
    lemma_extends_self(g);
    let shape = seq![1, s, h, c];
    let table = pair_swap(c as nat);
    let value = dense_value(seq![c, c], table, DataType::Float, 0, Role::Constant);
    let e = "bshd,de->bshe"@;
    lemma_need(g, g.known(x) && shape.len() >= 1 && c % 2 == 0 && c * c <= usize::MAX);
    let (g1, perm) = g.param(value);
    lemma_param_fits(g, value);
    lemma_next(g, g, g1, 0, 1);
    let (g2, out) = g1.einsum(e, seq![x, perm], false);
    lemma_bshd_de_bshe(1, s, h, c, c);
    assert(run.computes(g1) && run.computes(g));
    lemma_part_more(g, g1, g2);
    lemma_param_run(g, value, run);
    let m = lemma_binary_run(g1, e, x, perm, shape, seq![c, c], f, 0, false, run);
    lemma_padded_one();
    lemma_dims(s, h);
    lemma_dims(c, c);
    lemma_bshd_de_bshe_sum(run.on(x), run.on(perm), m, 1, s, h, c, c, 0, 0, 0, 0);
    lemma_signed_small(0);
    lemma_signed_small(1);
    assert(run.on(perm).table =~= table) by {
        let mapped = run.on(perm).table;
        assert forall|p: int| 0 <= p < table.len() implies mapped[p] == table[p] by {
            assert(table[p] == 0 || table[p] == 1);
        }
    }
    assert forall|i: int, b: int, a: int|
        0 <= i < padded(s) && 0 <= b < padded(h) && 0 <= a < c implies #[trigger] run.on(
        out[0],
    ).get(at4(0, i, b, a)) == run.on(x).get(at4(0, i, b, paired(a))) by {
        lemma_bshd_de_bshe_sum(run.on(x), run.on(perm), m, 1, s, h, c, c, 0, i, b, a);
        let entry = |d: int| run.on(x).get(at4(0, i, b, d));
        lemma_pair_swap(c as nat, entry, a);
        let p = |cd: int| run.on(x).get(seq![0, i, b, cd]) * run.on(perm).get(seq![cd, a]);
        let q = |d: int| entry(d) * pair_swap(c as nat)[d + a * (c as nat)];
        assert forall|d: int| 0 <= d < c implies #[trigger] p(d) == q(d) by {
            lemma_places(seq![c, c], seq![d, a]);
        }
        lemma_sum_ext(p, q, c as int);
    }
}

/// A product with a table of positions.
proof fn lemma_by_position_run(
    g: Graph,
    x: usize,
    w: usize,
    s: usize,
    h: usize,
    c: usize,
    f: usize,
    d: usize,
    run: Run,
)
    requires
        ready(g, 3),
        holds(g, x, seq![1, s, h, c], f),
        holds(g, w, seq![s, c], d),
        f < 60,
        d < 60,
        run.computes(g.einsum("bshd,sd->bshd"@, seq![x, w], true).0),
    ensures
        is_by_position(
            run.on(x),
            run.on(w),
            run.on(g.einsum("bshd,sd->bshd"@, seq![x, w], true).1[0]),
            s,
            h,
            c,
        ),
{
    broadcast use lemma_ready_less, group_step_part, lemma_part_run, lemma_holds_run;

    let e = "bshd,sd->bshd"@;
    let (g1, out) = g.einsum(e, seq![x, w], true);
    assert(run.computes(g));
    lemma_bshd_sd_bshd(1, s, h, c);
    let m = lemma_binary_run(g, e, x, w, seq![1, s, h, c], seq![s, c], f, d, true, run);
    lemma_padded_one();
    assert forall|i: int, b: int, a: int|
        0 <= i < padded(s) && 0 <= b < padded(h) && 0 <= a < padded(c) implies #[trigger] run.on(
        out[0],
    ).get(at4(0, i, b, a)) == times(
        run.on(x).get(at4(0, i, b, a)),
        f,
        run.on(w).get(at2(i, a)),
        d,
    ) by {
        lemma_four(1, s, h, c, 0, i, b, a);
        lemma_bshd_sd_bshd_sum(run.on(x), run.on(w), m, 1, s, h, c, 0, i, b, a);
        lemma_rescaled_get(m, (f + d) as usize, f, at4(0, i, b, a));
    }
}

/// The entries of the input times those of a table of positions.
pub open spec fn is_by_position(
    x: Tensor,
    w: Tensor,
    out: Tensor,
    s: usize,
    h: usize,
    c: usize,
) -> bool {
    forall|i: int, b: int, a: int|
        0 <= i < padded(s) && 0 <= b < padded(h) && 0 <= a < padded(c) ==> #[trigger] out.get(
            at4(0, i, b, a),
        ) == times(x.get(at4(0, i, b, a)), x.sf, w.get(at2(i, a)), w.sf)
}

/// The rotation by the cosines and sines of two tables.
pub proof fn lemma_rotate_run(
    g: Graph,
    x: usize,
    swapped: usize,
    cos: usize,
    sin: usize,
    s: usize,
    h: usize,
    c: usize,
    f: usize,
    d: usize,
    run: Run,
)
    requires
        ready(g, 7),
        holds(g, x, seq![1, s, h, c], f),
        computed(g, swapped, seq![1, s, h, c], f),
        holds(g, cos, seq![s, c], d),
        holds(g, sin, seq![s, c], d),
        c % 2 == 0,
        f < 60,
        d < 60,
        has_pairs_swapped(run.on(x), run.on(swapped), s, h, c),
        run.computes(g.rotate(x, swapped, cos, sin).0),
    ensures
        part(g, g.rotate(x, swapped, cos, sin).0),
        is_rotated(
            run.on(x),
            run.on(cos),
            run.on(sin),
            run.on(g.rotate(x, swapped, cos, sin).1[0]),
            s,
            h,
            c,
        ),
{
    broadcast use lemma_ready_less, group_step_part, lemma_part_run, lemma_holds_run;

    reveal(Graph::rotate);
    lemma_extends_self(g);
    let shape = seq![1, s, h, c];
    let e = "bshd,sd->bshd"@;
    let (g1, sines) = g.einsum(e, seq![swapped, sin], true);
    lemma_bshd_sd_bshd(1, s, h, c);
    lemma_binary_fits(g, e, swapped, sin, shape, seq![s, c], f, d, true);
    lemma_next(g, g, g1, 0, 3);
    let (g2, cosines) = g1.einsum(e, seq![x, cos], true);
    lemma_binary_fits(g1, e, x, cos, shape, seq![s, c], f, d, true);
    lemma_next(g, g1, g2, 3, 3);
    let (g3, out) = g2.plus(sines[0], cosines[0]);
    lemma_same_shape(shape);
    lemma_plus_fits(g2, sines[0], cosines[0], shape, shape, f, f);
    lemma_next(g, g2, g3, 6, 1);
    assert(run.computes(g2) && run.computes(g1) && run.computes(g));
    lemma_part_more(g, g1, g2);
    lemma_part_more(g, g2, g3);
    lemma_by_position_run(g, swapped, sin, s, h, c, f, d, run);
    lemma_by_position_run(g1, x, cos, s, h, c, f, d, run);
    lemma_plus_run(g2, sines[0], cosines[0], run);
    lemma_padded_one();
    lemma_dims(c, c);
    assert forall|i: int, b: int, a: int|
        0 <= i < padded(s) && 0 <= b < padded(h) && 0 <= a < c implies #[trigger] run.on(
        out[0],
    ).get(at4(0, i, b, a)) == times(
        run.on(x).get(at4(0, i, b, paired(a))),
        f,
        run.on(sin).get(at2(i, a)),
        d,
    ) + times(run.on(x).get(at4(0, i, b, a)), f, run.on(cos).get(at2(i, a)), d) by {
        let q = at4(0, i, b, a);
        lemma_four(1, s, h, c, 0, i, b, a);
        lemma_same_combined(
            run.on(sines[0]),
            run.on(cosines[0]),
            run.on(out[0]),
            false,
            place(shape, q),
        );
        assert(run.on(swapped).get(q) == run.on(x).get(at4(0, i, b, paired(a))));
        assert(run.on(sines[0]).get(q) == times(
            run.on(swapped).get(q),
            f,
            run.on(sin).get(at2(i, a)),
            d,
        ));
        assert(run.on(cosines[0]).get(q) == times(
            run.on(x).get(q),
            f,
            run.on(cos).get(at2(i, a)),
            d,
        ));
    }
}

/// Rotary position embedding of all positions.
pub proof fn lemma_rope_with_vecs_run(
    g: Graph,
    x: usize,
    cos: usize,
    sin: usize,
    s: usize,
    h: usize,
    c: usize,
    f: usize,
    d: usize,
    run: Run,
)
    requires
        ready(g, 11),
        holds(g, x, seq![1, s, h, c], f),
        holds(g, cos, seq![s, c], d),
        holds(g, sin, seq![s, c], d),
        c % 2 == 0,
        c * c <= usize::MAX,
        padded(c) == c,
        f < 60,
        d < 60,
        run.computes(g.rope_with_vecs(x, cos, sin).0),
    ensures
        part(g, g.rope_with_vecs(x, cos, sin).0),
        is_rotated(
            run.on(x),
            run.on(cos),
            run.on(sin),
            run.on(g.rope_with_vecs(x, cos, sin).1[0]),
            s,
            h,
            c,
        ),
{
    broadcast use lemma_ready_less, lemma_part_run, lemma_holds_run;

    reveal(Graph::rope_with_vecs);
    lemma_extends_self(g);
    let (g1, swapped) = g.swap_pairs(x);
    lemma_swap_pairs_fits(g, x, s, h, c, f);
    lemma_next(g, g, g1, 0, 4);
    let (g2, out) = g1.rotate(x, swapped[0], cos, sin);
    lemma_rotate_part(g1, x, swapped[0], cos, sin);
    assert(run.computes(g1));
    lemma_swap_pairs_run(g, x, s, h, c, f, run);
    lemma_rotate_run(g1, x, swapped[0], cos, sin, s, h, c, f, d, run);
    lemma_part_more(g, g1, g2);
}

/// A rotation leaves what was there as it was.
pub proof fn lemma_rotate_part(g: Graph, x: usize, swapped: usize, cos: usize, sin: usize)
    ensures
        part(g, g.rotate(x, swapped, cos, sin).0),
{
    broadcast use group_step_part;

    reveal(Graph::rotate);
    let e = "bshd,sd->bshd"@;
    let (g1, sines) = g.einsum(e, seq![swapped, sin], true);
    let (g2, cosines) = g1.einsum(e, seq![x, cos], true);
    let (g3, out) = g2.plus(sines[0], cosines[0]);
    lemma_part_more(g, g1, g2);
    lemma_part_more(g, g2, g3);
}

/// Attention with rotary position embedding: the queries and keys, which are given first and then
/// rotated, and the values, given last, are the heads of the products of the input with their
/// weights.
pub proof fn lemma_rotary_attention_run(
    g: Graph,
    x: usize,
    w: AttentionEdges,
    p: Rotary,
    n: usize,
    f: usize,
    d: usize,
    run: Run,
) -> (r: (Tensor, Tensor, Tensor, Tensor, Tensor))
    requires
        ready(g, 120),
        holds(g, x, seq![1, p.seq_len, n], f),
        holds(g, w.q, seq![n, n], d),
        holds(g, w.k, seq![n, n], d),
        holds(g, w.v, seq![n, n], d),
        holds(g, w.o, seq![n, n], d),
        holds(g, p.cos, seq![p.seq_len, p.head_dim], d),
        holds(g, p.sin, seq![p.seq_len, p.head_dim], d),
        n == p.num_heads * p.head_dim,
        p.head_dim % 2 == 0,
        p.head_dim * p.head_dim <= usize::MAX,
        padded(p.head_dim) == p.head_dim,
        num_vars(seq![1, p.num_heads, p.seq_len, p.seq_len]) < usize::BITS,
        g.sf_log < 32,
        f <= 22,
        d < 60,
        run.computes(g.rotary_attention(x, w, p).0),
        run.honest,
    ensures
        part(g, g.rotary_attention(x, w, p).0),
        r.0.sf == f,
        r.1.sf == f,
        r.2.sf == f,
        r.3.sf == f,
        r.4.sf == f,
        is_projection(run.on(x), run.on(w.q), r.0, p.seq_len, p.num_heads, p.head_dim, n),
        is_projection(run.on(x), run.on(w.k), r.1, p.seq_len, p.num_heads, p.head_dim, n),
        is_rotated(
            r.0,
            run.on(p.cos),
            run.on(p.sin),
            r.2,
            p.seq_len,
            p.num_heads,
            p.head_dim,
        ),
        is_rotated(
            r.1,
            run.on(p.cos),
            run.on(p.sin),
            r.3,
            p.seq_len,
            p.num_heads,
            p.head_dim,
        ),
        is_projection(run.on(x), run.on(w.v), r.4, p.seq_len, p.num_heads, p.head_dim, n),
        is_attention(
            run,
            r.2,
            r.3,
            r.4,
            run.on(w.o),
            p.root,
            run.on(g.rotary_attention(x, w, p).1[0]),
            p.seq_len,
            p.num_heads,
            p.head_dim,
            n,
            g.sf_log,
        ),
{
    broadcast use lemma_ready_less, lemma_part_run, lemma_holds_run;

    reveal(Graph::rotary_attention);
    lemma_extends_self(g);
    let (s, h, c) = (p.seq_len, p.num_heads, p.head_dim);
    lemma_need(g, p.num_heads * p.head_dim <= usize::MAX);
    assert(c * h == n) by (nonlinear_arith)
        requires
            n == h * c,
    ;
    let (g1, parts) = g.projections(x, w, seq![1, s, h, c]);
    lemma_projections_fits(g, x, w, s, n, h, c, f, d);
    lemma_next(g, g, g1, 0, 21);
    let (g2, q) = g1.rope_with_vecs(parts.0, p.cos, p.sin);
    lemma_rope_fits(g1, parts.0, p.cos, p.sin, s, h, c, f, d);
    lemma_next(g, g1, g2, 21, 11);
    let (g3, k) = g2.rope_with_vecs(parts.1, p.cos, p.sin);
    lemma_rope_fits(g2, parts.1, p.cos, p.sin, s, h, c, f, d);
    lemma_next(g, g2, g3, 32, 11);
    let (g4, out) = g3.attend((q[0], k[0], parts.2), w.o, p.root, s, n);
    lemma_attend_run(g3, (q[0], k[0], parts.2), w.o, p.root, s, h, c, n, f, d, run);
    assert(run.computes(g3));
    lemma_rope_with_vecs_run(g2, parts.1, p.cos, p.sin, s, h, c, f, d, run);
    assert(run.computes(g2));
    lemma_rope_with_vecs_run(g1, parts.0, p.cos, p.sin, s, h, c, f, d, run);
    assert(run.computes(g1));
    lemma_projections_run(g, x, w, s, n, h, c, f, d, run);
    lemma_part_more(g, g1, g2);
    lemma_part_more(g, g2, g3);
    lemma_part_more(g, g3, g4);
    (run.on(parts.0), run.on(parts.1), run.on(q[0]), run.on(k[0]), run.on(parts.2))
}

} // verus!
