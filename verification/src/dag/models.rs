//! What whole models compute.
use crate::arith::lemma_signed;
use crate::dag::attention::{at4, lemma_rotate_part, lemma_rotate_run, lemma_swap_pairs_run};
use crate::dag::blocks::{
    are_llama_blocks, are_nanogpt_blocks, are_values, is_sum, is_value, lemma_centred_less,
    lemma_llama_blocks_less, lemma_llama_blocks_run, lemma_nanogpt_blocks_less,
    lemma_nanogpt_blocks_run, lemma_normalised_less, lemma_sum_run, LlamaBlock, NanogptBlock,
};
use crate::dag::choices::lemma_two;
use crate::dag::entries::{lemma_places, padded, place, Tensor};
use crate::dag::fits::{
    computed, holds, lemma_binary_fits, lemma_embeddings_fits, lemma_extends_self,
    lemma_layer_norm_fits, lemma_llama_blocks_fits, lemma_nanogpt_blocks_fits, lemma_need,
    lemma_next, lemma_param_fits, lemma_ready_less, lemma_rms_norm_fits, lemma_swap_pairs_fits,
    llama_weights, nano_weights, ready, sizes_fit, weighs,
};
use crate::dag::graph::Graph;
use crate::dag::llama::{all_have, layer_weights, Rotary};
use crate::dag::mlps::{at2, at3, lemma_dims, lemma_three, linear, times};
use crate::dag::nanogpt::Heads;
use crate::dag::norms::{is_centred, is_normalised, lemma_layer_norm_run, lemma_rms_norm_run};
use crate::dag::readings::{lemma_bij_jk_ik, lemma_bsd_vd_bsv, lemma_bte_ve_btv, lemma_btv_ve_bte};
use crate::dag::rotary::{
    cos_row, lemma_rotation_rows, paired, position_numbers, rotation_fits, rotation_table, sin_row,
};
use crate::dag::run::{
    group_step_part, lemma_binary_run, lemma_change_shape_run, lemma_holds_run, lemma_param_run,
    lemma_part_more, lemma_part_run, lemma_rescaled_get, part, rescaled, Run,
};
use crate::dag::sums::{
    lemma_bij_jk_ik_sum, lemma_bsd_vd_bsv_sum, lemma_bte_ve_btv_sum, lemma_btv_ve_bte_sum,
    lemma_padded_one,
};
use crate::math::{lemma_sum_ext, sum_to};
use crate::witness::{dense_value, DataType, Role, Value};
use vstd::prelude::*;

verus! {

/// An entry of the product of a tensor with a transposed matrix of weights: `sum_k x[i, k] * w[u,
/// k]`.
pub open spec fn transposed(x: Tensor, w: Tensor, i: int, u: int, n: usize) -> int {
    rescaled(
        sum_to(|k: int| x.get(at3(0, i, k)) * w.get(at2(u, k)), padded(n)),
        (x.sf + w.sf) as usize,
        x.sf,
    )
}

/// The output is the sum of the product of one-hot rows with the embedding matrix and of the
/// position embeddings.
pub open spec fn is_embedding(
    onehot: Tensor,
    wte: Tensor,
    pos: Tensor,
    out: Tensor,
    s: usize,
    v: usize,
    n: usize,
) -> bool {
    &&& out.full()
    &&& forall|i: int, k: int|
        0 <= i < padded(s) && 0 <= k < padded(n) ==> #[trigger] out.get(at3(0, i, k)) == linear(
            onehot,
            wte,
            i,
            k,
            v,
        ) + pos.get(at3(0, i, k))
}

/// Token and position embeddings.
pub proof fn lemma_embeddings_run(
    g: Graph,
    onehot: usize,
    wte: usize,
    pos: usize,
    s: usize,
    v: usize,
    n: usize,
    f: usize,
    d: usize,
    run: Run,
)
    requires
        ready(g, 4),
        holds(g, onehot, seq![1, s, v], f),
        holds(g, wte, seq![v, n], d),
        holds(g, pos, seq![1, s, n], d),
        f < 60,
        d < 60,
        run.computes(g.embeddings(onehot, wte, pos).0),
    ensures
        part(g, g.embeddings(onehot, wte, pos).0),
        is_embedding(
            run.on(onehot),
            run.on(wte),
            run.on(pos),
            run.on(g.embeddings(onehot, wte, pos).1[0]),
            s,
            v,
            n,
        ),
{
    broadcast use lemma_ready_less, group_step_part, lemma_part_run, lemma_holds_run;

    reveal(Graph::embeddings);
    lemma_extends_self(g);
    let e = "btv,ve->bte"@;
    let shape = seq![1, s, n];
    let (g1, emb) = g.einsum(e, seq![onehot, wte], true);
    lemma_btv_ve_bte(1, s, v, n);
    lemma_binary_fits(g, e, onehot, wte, seq![1, s, v], seq![v, n], f, d, true);
    lemma_next(g, g, g1, 0, 3);
    let (g2, out) = g1.plus(emb[0], pos);
    assert(run.computes(g1) && run.computes(g));
    lemma_part_more(g, g1, g2);
    let m = lemma_binary_run(g, e, onehot, wte, seq![1, s, v], seq![v, n], f, d, true, run);
    lemma_sum_run(g1, emb[0], pos, shape, f, d, run);
    lemma_padded_one();
    let (x, w) = (run.on(onehot), run.on(wte));
    assert forall|i: int, k: int|
        0 <= i < padded(s) && 0 <= k < padded(n) implies #[trigger] run.on(out[0]).get(
        at3(0, i, k),
    ) == linear(x, w, i, k, v) + run.on(pos).get(at3(0, i, k)) by {
        lemma_three(1, s, n, 0, i, k);
        lemma_btv_ve_bte_sum(x, w, m, 1, s, v, n, 0, i, k);
        lemma_rescaled_get(m, (f + d) as usize, f, at3(0, i, k));
        lemma_sum_ext(
            |cv: int| x.get(seq![0, i, cv]) * w.get(seq![cv, k]),
            |u: int| x.get(at3(0, i, u)) * w.get(at2(u, k)),
            padded(v),
        );
    }
}

/// The output is the product with the transposed embedding matrix.
pub open spec fn are_logits(
    x: Tensor,
    w: Tensor,
    out: Tensor,
    s: usize,
    n: usize,
    v: usize,
) -> bool {
    forall|i: int, u: int|
        0 <= i < padded(s) && 0 <= u < padded(v) ==> #[trigger] out.get(at3(0, i, u)) == transposed(
            x,
            w,
            i,
            u,
            n,
        )
}

/// The logits.
pub proof fn lemma_lm_head_run(
    g: Graph,
    x: usize,
    w: usize,
    s: usize,
    n: usize,
    v: usize,
    f: usize,
    d: usize,
    run: Run,
)
    requires
        ready(g, 3),
        holds(g, x, seq![1, s, n], f),
        holds(g, w, seq![v, n], d),
        f < 60,
        d < 60,
        run.computes(g.lm_head(x, w).0),
    ensures
        part(g, g.lm_head(x, w).0),
        are_logits(run.on(x), run.on(w), run.on(g.lm_head(x, w).1[0]), s, n, v),
{
    broadcast use lemma_ready_less, group_step_part, lemma_part_run, lemma_holds_run;

    reveal(Graph::lm_head);
    let e = "bte,ve->btv"@;
    let (g1, out) = g.einsum(e, seq![x, w], true);
    lemma_bte_ve_btv(1, s, n, v);
    assert(run.computes(g));
    let m = lemma_binary_run(g, e, x, w, seq![1, s, n], seq![v, n], f, d, true, run);
    lemma_padded_one();
    let (a, b) = (run.on(x), run.on(w));
    assert forall|i: int, u: int|
        0 <= i < padded(s) && 0 <= u < padded(v) implies #[trigger] run.on(out[0]).get(
        at3(0, i, u),
    ) == transposed(a, b, i, u, n) by {
        lemma_three(1, s, v, 0, i, u);
        lemma_bte_ve_btv_sum(a, b, m, 1, s, n, v, 0, i, u);
        lemma_rescaled_get(m, (f + d) as usize, f, at3(0, i, u));
        lemma_sum_ext(
            |ce: int| a.get(seq![0, i, ce]) * b.get(seq![u, ce]),
            |k: int| a.get(at3(0, i, k)) * b.get(at2(u, k)),
            padded(n),
        );
    }
}

/// The product with the transposed embedding matrix, as a matrix with a row for each position.
pub open spec fn are_tied_logits(
    x: Tensor,
    w: Tensor,
    out: Tensor,
    s: usize,
    n: usize,
    v: usize,
) -> bool {
    &&& out.shape == seq![s, v]
    &&& forall|i: int, u: int|
        0 <= i < padded(s) && 0 <= u < padded(v) ==> #[trigger] out.get(at2(i, u)) == transposed(
            x,
            w,
            i,
            u,
            n,
        )
}

/// The logits as a matrix.
pub proof fn lemma_lm_head_weight_tied_run(
    g: Graph,
    x: usize,
    w: usize,
    s: usize,
    n: usize,
    v: usize,
    f: usize,
    d: usize,
    run: Run,
)
    requires
        ready(g, 4),
        holds(g, x, seq![1, s, n], f),
        holds(g, w, seq![v, n], d),
        f < 60,
        d < 60,
        run.computes(g.lm_head_weight_tied(x, w, s, v).0),
    ensures
        part(g, g.lm_head_weight_tied(x, w, s, v).0),
        are_tied_logits(
            run.on(x),
            run.on(w),
            run.on(g.lm_head_weight_tied(x, w, s, v).1),
            s,
            n,
            v,
        ),
{
    broadcast use lemma_ready_less, group_step_part, lemma_part_run, lemma_holds_run;

    lemma_extends_self(g);
    let e = "bsd,vd->bsv"@;
    let (g1, logits) = g.einsum(e, seq![x, w], true);
    lemma_bsd_vd_bsv(1, s, n, v);
    lemma_binary_fits(g, e, x, w, seq![1, s, n], seq![v, n], f, d, true);
    lemma_next(g, g, g1, 0, 3);
    let (g2, out) = g1.change_shape(logits[0], seq![s, v]);
    assert(run.computes(g1) && run.computes(g));
    lemma_part_more(g, g1, g2);
    let m = lemma_binary_run(g, e, x, w, seq![1, s, n], seq![v, n], f, d, true, run);
    lemma_change_shape_run(g1, logits[0], seq![s, v], run);
    lemma_padded_one();
    let (a, b) = (run.on(x), run.on(w));
    assert forall|i: int, u: int|
        0 <= i < padded(s) && 0 <= u < padded(v) implies #[trigger] run.on(out).get(at2(i, u))
        == transposed(a, b, i, u, n) by {
        lemma_three(1, s, v, 0, i, u);
        lemma_matrix_place(s, v, i, u);
        lemma_bsd_vd_bsv_sum(a, b, m, 1, s, n, v, 0, i, u);
        lemma_rescaled_get(m, (f + d) as usize, f, at3(0, i, u));
        lemma_sum_ext(
            |cd: int| a.get(seq![0, i, cd]) * b.get(seq![u, cd]),
            |k: int| a.get(at3(0, i, k)) * b.get(at2(u, k)),
            padded(n),
        );
    }
}

/// A matrix has its entries where a tensor with one more dimension of one has them.
pub proof fn lemma_matrix_place(s: usize, v: usize, i: int, u: int)
    ensures
        place(seq![s, v], at2(i, u)) == place(seq![1, s, v], at3(0, i, u)),
{
    lemma_padded_one();
    lemma_places(seq![s, v], at2(i, u));
    lemma_places(seq![1, s, v], at3(0, i, u));
    let p = padded(s);
    assert(i * 1 == i && u * (1 * p) == u * p);
}

/// A positional encoding is added entry by entry.
pub proof fn lemma_add_positional_encoding_run(
    g: Graph,
    h: usize,
    pos: Value,
    shape: Seq<usize>,
    f: usize,
    run: Run,
) -> (t: Tensor)
    requires
        ready(g, 2),
        computed(g, h, shape, f),
        pos.role == Role::Constant,
        pos.shape == shape,
        run.computes(g.add_positional_encoding(h, pos).0),
    ensures
        part(g, g.add_positional_encoding(h, pos).0),
        is_value(t, pos),
        is_sum(run.on(h), t, run.on(g.add_positional_encoding(h, pos).1)),
{
    broadcast use lemma_ready_less, group_step_part, lemma_part_run, lemma_holds_run;

    lemma_extends_self(g);
    let (g1, p) = g.param(pos);
    lemma_param_fits(g, pos);
    lemma_next(g, g, g1, 0, 1);
    let (g2, out) = g1.plus(h, p);
    assert(run.computes(g1) && run.computes(g));
    lemma_part_more(g, g1, g2);
    lemma_param_run(g, pos, run);
    lemma_sum_run(g1, h, p, shape, f, pos.sf, run);
    run.on(p)
}

/// What nanoGPT computes on its way.
pub ghost struct NanogptRun {
    pub wte: Tensor,
    pub positions: Tensor,
    pub embedding: Tensor,
    pub blocks: Seq<NanogptBlock>,
    pub weights: Tensor,
    pub means: Seq<int>,
    pub centred: Tensor,
    pub squares: Seq<int>,
    pub factors: Seq<int>,
    pub norm: Tensor,
}

/// nanoGPT: the logits are the product of the normalised output of the last block with the
/// transposed embedding matrix, and the first block takes the embeddings.
pub open spec fn is_nanogpt(
    run: Run,
    passes: bool,
    onehot: Tensor,
    wte: Value,
    pos_emb: Value,
    weights: Seq<Seq<Value>>,
    norm_w: Value,
    n_layer: nat,
    p: Heads,
    v: usize,
    n: usize,
    m: usize,
    sf: usize,
    t: NanogptRun,
    out: Tensor,
) -> bool {
    let s = p.seq_len;
    let last = if n_layer == 0 {
        t.embedding
    } else {
        t.blocks.last().out
    };
    &&& is_value(t.wte, wte)
    &&& is_value(t.positions, pos_emb)
    &&& is_value(t.weights, norm_w)
    &&& is_embedding(onehot, t.wte, t.positions, t.embedding, s, v, n)
    &&& are_nanogpt_blocks(run, passes, t.embedding, weights, p, n, m, sf, n_layer, t.blocks)
    &&& is_centred(run, passes, last, t.means, t.centred, s, n)
    &&& is_normalised(run, passes, t.centred, t.weights, t.norm, t.squares, t.factors, s, n, sf)
    &&& are_logits(t.norm, t.wte, out, s, n, v)
}

/// nanoGPT on one-hot rows.
pub proof fn lemma_nanogpt_run(
    g: Graph,
    onehot: usize,
    wte: Value,
    pos_emb: Value,
    weights: Seq<Seq<Value>>,
    norm_w: Value,
    mask: Value,
    n_layer: nat,
    p: Heads,
    v: usize,
    n: usize,
    m: usize,
    run: Run,
) -> (t: NanogptRun)
    requires
        ready(g, 289int * n_layer + 72),
        holds(g, onehot, seq![1, p.seq_len, v], g.sf_log),
        weighs(wte, seq![v, n], g.sf_log),
        weighs(pos_emb, seq![1, p.seq_len, n], g.sf_log),
        all_have(weights, n_layer),
        forall|i: int|
            0 <= i < n_layer ==> nano_weights(
                #[trigger] layer_weights(weights, i),
                n,
                m,
                g.sf_log,
            ),
        weighs(norm_w, seq![n], g.sf_log),
        mask.role == Role::Constant,
        n == p.n_head * p.head_dim,
        sizes_fit(p.seq_len, p.n_head, n, m),
        g.sf_log <= 22,
        run.computes(g.nanogpt(onehot, wte, pos_emb, weights, norm_w, mask, n_layer, p).0),
        run.honest,
    ensures
        ({
            let (h, r) = g.nanogpt(onehot, wte, pos_emb, weights, norm_w, mask, n_layer, p);
            &&& part(g, h)
            &&& is_nanogpt(
                run,
                run.passes(h),
                run.on(onehot),
                wte,
                pos_emb,
                weights,
                norm_w,
                n_layer,
                p,
                v,
                n,
                m,
                g.sf_log,
                t,
                run.on(r[0]),
            )
        }),
{
    broadcast use lemma_ready_less, group_step_part, lemma_part_run, lemma_holds_run;

    let (f, s) = (g.sf_log, p.seq_len);
    lemma_extends_self(g);
    lemma_need(g, all_have(weights, n_layer));
    let (g1, wte_edge) = g.param(wte);
    lemma_param_fits(g, wte);
    lemma_next(g, g, g1, 0, 1);
    let (g2, pos) = g1.param(pos_emb);
    lemma_param_fits(g1, pos_emb);
    lemma_next(g, g1, g2, 1, 1);
    let (g3, emb) = g2.embeddings(onehot, wte_edge, pos);
    lemma_embeddings_fits(g2, onehot, wte_edge, pos, s, v, n, f, f);
    lemma_next(g, g2, g3, 2, 4);
    let (g4, _) = g3.param(mask);
    lemma_param_fits(g3, mask);
    lemma_next(g, g3, g4, 6, 1);
    let (g5, x) = g4.nanogpt_blocks(emb[0], weights, p, n_layer);
    lemma_nanogpt_blocks_fits(g4, emb[0], weights, p, n, m, n_layer);
    lemma_next(g, g4, g5, 7, 289int * n_layer);
    let (g6, w) = g5.param(norm_w);
    lemma_param_fits(g5, norm_w);
    lemma_next(g, g5, g6, 289int * n_layer + 7, 1);
    let (g7, norm) = g6.layer_norm(x, w);
    lemma_layer_norm_fits(g6, x, w, s, n, f, f);
    lemma_next(g, g6, g7, 289int * n_layer + 8, 61);
    let (g8, logits) = g7.lm_head(norm[0], wte_edge);
    lemma_lm_head_run(g7, norm[0], wte_edge, s, n, v, f, f, run);
    assert(run.computes(g7));
    let r7 = lemma_layer_norm_run(g6, x, w, s, n, f, f, run);
    assert(run.computes(g6) && run.computes(g5));
    let blocks = lemma_nanogpt_blocks_run(g4, emb[0], weights, p, n, m, n_layer, run);
    assert(run.computes(g4) && run.computes(g3));
    lemma_embeddings_run(g2, onehot, wte_edge, pos, s, v, n, f, f, run);
    assert(run.computes(g2) && run.computes(g1) && run.computes(g));
    lemma_part_more(g, g1, g2);
    lemma_part_more(g, g2, g3);
    lemma_part_more(g, g3, g4);
    lemma_part_more(g, g4, g5);
    lemma_part_more(g, g5, g6);
    lemma_part_more(g, g6, g7);
    lemma_part_more(g, g7, g8);
    lemma_param_run(g, wte, run);
    lemma_param_run(g1, pos_emb, run);
    lemma_param_run(g5, norm_w, run);
    let all = run.passes(g8);
    let t = NanogptRun {
        wte: run.on(wte_edge),
        positions: run.on(pos),
        embedding: run.on(emb[0]),
        blocks,
        weights: run.on(w),
        means: r7.0,
        centred: r7.1,
        squares: r7.2,
        factors: r7.3,
        norm: run.on(norm[0]),
    };
    lemma_nanogpt_blocks_less(
        run,
        run.passes(g5),
        all,
        t.embedding,
        weights,
        p,
        n,
        m,
        f,
        n_layer,
        blocks,
    );
    lemma_centred_less(run, run.passes(g7), all, run.on(x), r7.0, r7.1, s, n);
    lemma_normalised_less(
        run,
        run.passes(g7),
        all,
        r7.1,
        t.weights,
        t.norm,
        r7.2,
        r7.3,
        s,
        n,
        f,
    );
    t
}

/// The cosines or sines of all positions: entry `(i, a)` is the number of pair `a / 2` at position
/// `i`, negated for the second of a pair if `alternating` is set.
pub open spec fn are_angles(
    t: Tensor,
    numbers: Seq<i64>,
    s: usize,
    c: usize,
    alternating: bool,
) -> bool {
    forall|i: int, a: int|
        0 <= i < s && 0 <= a < c ==> #[trigger] t.get(at2(i, a)) == if alternating && a % 2 == 1 {
            -(numbers[(a / 2) * s + i] as int)
        } else {
            numbers[(a / 2) * s + i] as int
        }
}

/// The table of a rotation in a run.
proof fn lemma_angles_run(
    g: Graph,
    numbers: Seq<i64>,
    s: usize,
    c: usize,
    alternating: bool,
    sf: usize,
    run: Run,
)
    requires
        ready(g, 1),
        rotation_fits(c as nat, s as nat, numbers),
        run.computes(
            g.constant(
                seq![s, c],
                rotation_table(c as nat, s as nat, numbers, alternating),
                sf,
            ).0,
        ),
    ensures
        are_angles(
            run.on(
                g.constant(
                    seq![s, c],
                    rotation_table(c as nat, s as nat, numbers, alternating),
                    sf,
                ).1,
            ),
            numbers,
            s,
            c,
            alternating,
        ),
{
    let table = rotation_table(c as nat, s as nat, numbers, alternating);
    let value = dense_value(seq![s, c], table, DataType::Float, sf, Role::Constant);
    lemma_param_run(g, value, run);
    let t = run.on(g.param(value).1);
    lemma_dims(s, c);
    assert forall|i: int, a: int| 0 <= i < s && 0 <= a < c implies #[trigger] t.get(at2(i, a))
        == if alternating && a % 2 == 1 {
        -(numbers[(a / 2) * s + i] as int)
    } else {
        numbers[(a / 2) * s + i] as int
    } by {
        lemma_two(s, c, i, a);
        lemma_rotation_rows(c as nat, s as nat, numbers, i, a);
        let v = numbers[(a / 2) * s + i] as int;
        lemma_signed(v);
        lemma_signed(-v);
        let p = i + a * padded(s);
        assert(0 <= p < table.len()) by (nonlinear_arith)
            requires
                0 <= i < padded(s),
                0 <= a < c,
                p == i + a * padded(s),
                table.len() == padded(s) * c,
        ;
        let row = position_numbers(c as nat, s as nat, numbers, i);
        assert(row[a / 2] == numbers[(a / 2) * s + i]);
    }
}

/// What LLaMA computes on its way.
pub ghost struct LlamaRun {
    pub cos: Tensor,
    pub sin: Tensor,
    pub blocks: Seq<LlamaBlock>,
    pub weights: Tensor,
    pub squares: Seq<int>,
    pub factors: Seq<int>,
    pub norm: Tensor,
    pub logits: Tensor,
}

/// LLaMA: the logits are the product of the normalised output of the last block with their weights.
#[verifier::opaque]
pub open spec fn is_llama(
    run: Run,
    passes: bool,
    x: Tensor,
    weights: Seq<Seq<Value>>,
    layer_norm: Value,
    logits: Value,
    p: Rotary,
    vocab_size: usize,
    cosines: Seq<i64>,
    sines: Seq<i64>,
    n: usize,
    m: usize,
    sf: usize,
    t: LlamaRun,
    out: Tensor,
) -> bool {
    let (s, c, k) = (p.seq_len, p.head_dim, weights[0].len());
    let last = if k == 0 {
        x
    } else {
        t.blocks.last().out
    };
    &&& are_angles(t.cos, cosines, s, c, false)
    &&& are_angles(t.sin, sines, s, c, true)
    &&& are_llama_blocks(run, passes, x, weights, t.cos, t.sin, p, n, m, sf, k, t.blocks)
    &&& is_value(t.weights, layer_norm)
    &&& is_normalised(run, passes, last, t.weights, t.norm, t.squares, t.factors, s, n, sf)
    &&& is_value(t.logits, logits)
    &&& are_rows_times(t.norm, t.logits, out, s, n, vocab_size)
}

/// The product of a tensor with a matrix of weights, as a matrix with a row for each position.
pub open spec fn are_rows_times(
    x: Tensor,
    w: Tensor,
    out: Tensor,
    s: usize,
    n: usize,
    v: usize,
) -> bool {
    forall|i: int, u: int|
        0 <= i < padded(s) && 0 <= u < padded(v) ==> #[trigger] out.get(at2(i, u)) == linear(
            x,
            w,
            i,
            u,
            n,
        )
}

/// The logits by weights of their own.
proof fn lemma_logits_run(
    g: Graph,
    x: usize,
    w: usize,
    s: usize,
    n: usize,
    v: usize,
    f: usize,
    d: usize,
    run: Run,
)
    requires
        ready(g, 4),
        holds(g, x, seq![1, s, n], f),
        holds(g, w, seq![n, v], d),
        f < 60,
        d < 60,
        ({
            let (h, out) = g.einsum("bij,jk->ik"@, seq![x, w], true);
            run.computes(h.change_shape(out[0], seq![s, v]).0)
        }),
    ensures
        ({
            let (h, out) = g.einsum("bij,jk->ik"@, seq![x, w], true);
            are_rows_times(
                run.on(x),
                run.on(w),
                run.on(h.change_shape(out[0], seq![s, v]).1),
                s,
                n,
                v,
            )
        }),
{
    broadcast use lemma_ready_less, group_step_part, lemma_part_run, lemma_holds_run;

    lemma_extends_self(g);
    let e = "bij,jk->ik"@;
    let (g1, out) = g.einsum(e, seq![x, w], true);
    lemma_bij_jk_ik(1, s, n, v);
    lemma_binary_fits(g, e, x, w, seq![1, s, n], seq![n, v], f, d, true);
    lemma_next(g, g, g1, 0, 3);
    let (g2, last) = g1.change_shape(out[0], seq![s, v]);
    assert(run.computes(g1) && run.computes(g));
    let t = lemma_binary_run(g, e, x, w, seq![1, s, n], seq![n, v], f, d, true, run);
    lemma_change_shape_run(g1, out[0], seq![s, v], run);
    let (a, b) = (run.on(x), run.on(w));
    assert forall|i: int, j: int|
        0 <= i < padded(s) && 0 <= j < padded(v) implies #[trigger] run.on(last).get(at2(i, j))
        == linear(a, b, i, j, n) by {
        lemma_two(s, v, i, j);
        lemma_bij_jk_ik_sum(a, b, t, s, n, v, i, j);
        lemma_rescaled_get(t, (f + d) as usize, f, at2(i, j));
        lemma_sum_ext(
            |cj: int| a.get(seq![0, i, cj]) * b.get(seq![cj, j]),
            |l: int| a.get(at3(0, i, l)) * b.get(at2(l, j)),
            padded(n),
        );
    }
}

/// LLaMA with heads whose width is a power of two.
#[verifier::rlimit(60)]
pub proof fn lemma_llama_run(
    g: Graph,
    x: usize,
    weights: Seq<Seq<Value>>,
    layer_norm: Value,
    logits: Value,
    num_heads: usize,
    head_dim: usize,
    seq_len: usize,
    vocab_size: usize,
    cosines: Seq<i64>,
    sines: Seq<i64>,
    root: u32,
    n: usize,
    m: usize,
    run: Run,
) -> (r: (Rotary, LlamaRun))
    requires
        ready(g, 272int * weights[0].len() + 48),
        holds(g, x, seq![1, seq_len, n], g.sf_log),
        all_have(weights, weights[0].len()),
        forall|i: int|
            0 <= i < weights[0].len() ==> llama_weights(
                #[trigger] layer_weights(weights, i),
                n,
                m,
                g.sf_log,
            ),
        weighs(layer_norm, seq![n], g.sf_log),
        weighs(logits, seq![n, vocab_size], g.sf_log),
        rotation_fits(head_dim as nat, seq_len as nat, cosines),
        rotation_fits(head_dim as nat, seq_len as nat, sines),
        n == num_heads * head_dim,
        head_dim * head_dim <= usize::MAX,
        padded(head_dim) == head_dim,
        sizes_fit(seq_len, num_heads, n, m),
        g.sf_log <= 22,
        run.computes(
            g.llama(
                x,
                weights,
                layer_norm,
                logits,
                num_heads,
                head_dim,
                seq_len,
                vocab_size,
                cosines,
                sines,
                root,
            ).0,
        ),
        run.honest,
    ensures
        r.0.num_heads == num_heads,
        r.0.head_dim == head_dim,
        r.0.seq_len == seq_len,
        r.0.root == root,
        ({
            let (h, outs) = g.llama(
                x,
                weights,
                layer_norm,
                logits,
                num_heads,
                head_dim,
                seq_len,
                vocab_size,
                cosines,
                sines,
                root,
            );
            &&& part(g, h)
            &&& is_llama(
                run,
                run.passes(h),
                run.on(x),
                weights,
                layer_norm,
                logits,
                r.0,
                vocab_size,
                cosines,
                sines,
                n,
                m,
                g.sf_log,
                r.1,
                run.on(outs[0]),
            )
        }),
{
    broadcast use lemma_ready_less, group_step_part, lemma_part_run, lemma_holds_run;

    let (f, s, k) = (g.sf_log, seq_len, weights[0].len());
    let (d, len) = (head_dim as nat, seq_len as nat);
    let dims = seq![seq_len, head_dim];
    lemma_extends_self(g);
    lemma_need(
        g,
        rotation_fits(d, len, cosines) && rotation_fits(d, len, sines) && all_have(weights, k),
    );
    let cos_table = rotation_table(d, len, cosines, false);
    let (g1, cos) = g.constant(dims, cos_table, f);
    lemma_param_fits(g, dense_value(dims, cos_table, DataType::Float, f, Role::Constant));
    lemma_next(g, g, g1, 0, 1);
    let sin_table = rotation_table(d, len, sines, true);
    let (g2, sin) = g1.constant(dims, sin_table, f);
    lemma_param_fits(g1, dense_value(dims, sin_table, DataType::Float, f, Role::Constant));
    lemma_next(g, g1, g2, 1, 1);
    let p = Rotary { num_heads, head_dim, seq_len, cos, sin, root };
    let (g3, y) = g2.llama_blocks(x, weights, p, k);
    lemma_llama_blocks_fits(g2, x, weights, p, n, m, k);
    lemma_next(g, g2, g3, 2, 272int * k);
    let (g4, w) = g3.param(layer_norm);
    lemma_param_fits(g3, layer_norm);
    lemma_next(g, g3, g4, 272int * k + 2, 1);
    let (g5, norm) = g4.rms_norm(y, w);
    lemma_rms_norm_fits(g4, y, w, s, n, f, f);
    lemma_next(g, g4, g5, 272int * k + 3, 40);
    let (g6, u) = g5.param(logits);
    lemma_param_fits(g5, logits);
    lemma_next(g, g5, g6, 272int * k + 43, 1);
    let e = "bij,jk->ik"@;
    let (g7, out) = g6.einsum(e, seq![norm[0], u], true);
    lemma_bij_jk_ik(1, s, n, vocab_size);
    lemma_binary_fits(g6, e, norm[0], u, seq![1, s, n], seq![n, vocab_size], f, f, true);
    lemma_next(g, g6, g7, 272int * k + 44, 3);
    let shape = seq![seq_len, vocab_size];
    let (g8, last) = g7.change_shape(out[0], shape);
    assert(run.computes(g7) && run.computes(g6) && run.computes(g5));
    let r5 = lemma_rms_norm_run(g4, y, w, s, n, f, f, run);
    assert(run.computes(g4) && run.computes(g3));
    let blocks = lemma_llama_blocks_run(g2, x, weights, p, n, m, k, run);
    assert(run.computes(g2) && run.computes(g1) && run.computes(g));
    lemma_part_more(g, g1, g2);
    lemma_part_more(g, g2, g3);
    lemma_part_more(g, g3, g4);
    lemma_part_more(g, g4, g5);
    lemma_part_more(g, g5, g6);
    lemma_part_more(g, g6, g7);
    lemma_part_more(g, g7, g8);
    lemma_angles_run(g, cosines, s, head_dim, false, f, run);
    lemma_angles_run(g1, sines, s, head_dim, true, f, run);
    lemma_param_run(g3, layer_norm, run);
    lemma_param_run(g5, logits, run);
    lemma_logits_run(g6, norm[0], u, s, n, vocab_size, f, f, run);
    let (a, b) = (run.on(norm[0]), run.on(u));
    let all = run.passes(g8);
    lemma_llama_blocks_less(
        run,
        run.passes(g3),
        all,
        run.on(x),
        weights,
        run.on(cos),
        run.on(sin),
        p,
        n,
        m,
        f,
        k,
        blocks,
    );
    lemma_normalised_less(
        run,
        run.passes(g5),
        all,
        run.on(y),
        run.on(w),
        a,
        r5.0,
        r5.1,
        s,
        n,
        f,
    );
    reveal(is_llama);
    (
        p,
        LlamaRun {
            cos: run.on(cos),
            sin: run.on(sin),
            blocks,
            weights: run.on(w),
            squares: r5.0,
            factors: r5.1,
            norm: a,
            logits: b,
        },
    )
}

/// One position rotated: an entry times the cosine of its pair, plus the other one of the pair
/// times the sine, negated for the second one.
pub open spec fn is_rotated_once(
    x: Tensor,
    cosines: Seq<i64>,
    sines: Seq<i64>,
    out: Tensor,
    h: usize,
    c: usize,
    sf: usize,
) -> bool {
    forall|b: int, a: int|
        0 <= b < padded(h) && 0 <= a < c ==> #[trigger] out.get(at4(0, 0, b, a)) == times(
            x.get(at4(0, 0, b, paired(a))),
            x.sf,
            if a % 2 == 1 {
                -(sines[a / 2] as int)
            } else {
                sines[a / 2] as int
            },
            sf,
        ) + times(x.get(at4(0, 0, b, a)), x.sf, cosines[a / 2] as int, sf)
}

/// Rotary position embedding of one position, for heads whose width is a power of two.
pub proof fn lemma_rope_run(
    g: Graph,
    x: usize,
    cosines: Seq<i64>,
    sines: Seq<i64>,
    h: usize,
    c: usize,
    f: usize,
    run: Run,
)
    requires
        ready(g, 13),
        holds(g, x, seq![1, 1, h, c], f),
        c % 2 == 0,
        c * c <= usize::MAX,
        padded(c) == c,
        2 * cosines.len() == c,
        2 * sines.len() == c,
        f < 60,
        g.sf_log < 60,
        run.computes(g.rope(x, cosines, sines).0),
    ensures
        part(g, g.rope(x, cosines, sines).0),
        is_rotated_once(
            run.on(x),
            cosines,
            sines,
            run.on(g.rope(x, cosines, sines).1[0]),
            h,
            c,
            g.sf_log,
        ),
{
    broadcast use lemma_ready_less, group_step_part, lemma_part_run, lemma_holds_run;

    reveal(Graph::rope);
    lemma_extends_self(g);
    let sf = g.sf_log;
    let (g1, swapped) = g.swap_pairs(x);
    lemma_swap_pairs_fits(g, x, 1, h, c, f);
    lemma_next(g, g, g1, 0, 4);
    lemma_need(g1, 2 * cosines.len() == c && 2 * sines.len() == c);
    let sine = dense_value(seq![1, c], sin_row(sines), DataType::Float, sf, Role::Constant);
    let (g2, sin) = g1.param(sine);
    lemma_param_fits(g1, sine);
    lemma_next(g, g1, g2, 4, 1);
    let cosine = dense_value(seq![1, c], cos_row(cosines), DataType::Float, sf, Role::Constant);
    let (g3, cos) = g2.param(cosine);
    lemma_param_fits(g2, cosine);
    lemma_next(g, g2, g3, 5, 1);
    let (g4, out) = g3.rotate(x, swapped[0], cos, sin);
    lemma_rotate_part(g3, x, swapped[0], cos, sin);
    assert(run.computes(g3) && run.computes(g2) && run.computes(g1));
    lemma_swap_pairs_run(g, x, 1, h, c, f, run);
    lemma_rotate_run(g3, x, swapped[0], cos, sin, 1, h, c, f, sf, run);
    assert(run.computes(g));
    lemma_part_more(g, g1, g2);
    lemma_part_more(g, g2, g3);
    lemma_part_more(g, g3, g4);
    lemma_param_run(g1, sine, run);
    lemma_param_run(g2, cosine, run);
    lemma_padded_one();
    assert forall|b: int, a: int| 0 <= b < padded(h) && 0 <= a < c implies #[trigger] run.on(
        out[0],
    ).get(at4(0, 0, b, a)) == times(
        run.on(x).get(at4(0, 0, b, paired(a))),
        f,
        if a % 2 == 1 {
            -(sines[a / 2] as int)
        } else {
            sines[a / 2] as int
        },
        sf,
    ) + times(run.on(x).get(at4(0, 0, b, a)), f, cosines[a / 2] as int, sf) by {
        lemma_two(1, c, 0, a);
        lemma_signed(cosines[a / 2] as int);
        lemma_signed(sines[a / 2] as int);
        lemma_signed(-(sines[a / 2] as int));
        assert(run.on(cos).get(at2(0, a)) == cosines[a / 2]);
        assert(run.on(out[0]).get(at4(0, 0, b, a)) == times(
            run.on(x).get(at4(0, 0, b, paired(a))),
            f,
            run.on(sin).get(at2(0, a)),
            sf,
        ) + times(run.on(x).get(at4(0, 0, b, a)), f, run.on(cos).get(at2(0, a)), sf));
    }
}

/// The check of fewer graphs asks for less.
pub proof fn lemma_llama_less(
    run: Run,
    some: bool,
    all: bool,
    x: Tensor,
    weights: Seq<Seq<Value>>,
    layer_norm: Value,
    logits: Value,
    p: Rotary,
    vocab_size: usize,
    cosines: Seq<i64>,
    sines: Seq<i64>,
    n: usize,
    m: usize,
    sf: usize,
    t: LlamaRun,
    out: Tensor,
)
    requires
        all ==> some,
        is_llama(
            run,
            some,
            x,
            weights,
            layer_norm,
            logits,
            p,
            vocab_size,
            cosines,
            sines,
            n,
            m,
            sf,
            t,
            out,
        ),
    ensures
        is_llama(
            run,
            all,
            x,
            weights,
            layer_norm,
            logits,
            p,
            vocab_size,
            cosines,
            sines,
            n,
            m,
            sf,
            t,
            out,
        ),
{
    reveal(is_llama);
    let (s, k) = (p.seq_len, weights[0].len());
    let last = if k == 0 {
        x
    } else {
        t.blocks.last().out
    };
    lemma_llama_blocks_less(
        run,
        some,
        all,
        x,
        weights,
        t.cos,
        t.sin,
        p,
        n,
        m,
        sf,
        k,
        t.blocks,
    );
    lemma_normalised_less(
        run,
        some,
        all,
        last,
        t.weights,
        t.norm,
        t.squares,
        t.factors,
        s,
        n,
        sf,
    );
}

/// The blocks of LLaMA hold the weights of their layers.
pub proof fn lemma_llama_weights(
    run: Run,
    passes: bool,
    x: Tensor,
    weights: Seq<Seq<Value>>,
    layer_norm: Value,
    logits: Value,
    p: Rotary,
    vocab_size: usize,
    cosines: Seq<i64>,
    sines: Seq<i64>,
    n: usize,
    m: usize,
    sf: usize,
    t: LlamaRun,
    out: Tensor,
)
    requires
        is_llama(
            run,
            passes,
            x,
            weights,
            layer_norm,
            logits,
            p,
            vocab_size,
            cosines,
            sines,
            n,
            m,
            sf,
            t,
            out,
        ),
    ensures
        t.blocks.len() == weights[0].len(),
        forall|i: int|
            0 <= i < t.blocks.len() ==> are_values(
                (#[trigger] t.blocks[i]).weights,
                layer_weights(weights, i),
            ),
{
    reveal(is_llama);
}

} // verus!
