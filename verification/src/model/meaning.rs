//! What the graphs of the models compute, from their weights and tokens.
use crate::dag::blocks::{are_values, is_value, LlamaBlock, NanogptBlock};
use crate::dag::choices::{
    are_margins, are_rows, lemma_argmax_check_run, lemma_embedding_lookup_run,
};
use crate::dag::entries::{padded, Tensor};
use crate::dag::fits::{
    lemma_change_shape_fits, lemma_embedding_lookup_fits, lemma_extends, lemma_llama_fits,
    lemma_param_fits, lemma_ready_less, llama_weights, ready, sizes_fit, weighs,
};
use crate::dag::graph::empty_graph;
use crate::dag::llama::{all_have, layer_weights, Rotary};
use crate::dag::mlps::{at2, at3};
use crate::dag::models::{
    is_llama, is_nanogpt, lemma_llama_less, lemma_llama_run, lemma_llama_weights,
    lemma_matrix_place, lemma_nanogpt_run, LlamaRun, NanogptRun,
};
use crate::dag::nanogpt::{
    Heads, NANO_HEAD_DIM, NANO_MLP_HIDDEN, NANO_N_EMBD, NANO_N_HEAD, NANO_N_LAYER, NANO_VOCAB_SIZE,
};
use crate::dag::oneshot::selectable;
use crate::dag::rotary::rotation_fits;
use crate::dag::run::{
    lemma_change_shape_part, lemma_change_shape_run, lemma_holds_run, lemma_param_run,
    lemma_part_run, Run,
};
use crate::model::llama::{no_tokens, LlamaWeights};
use crate::model::nanogpt::{lemma_random_layers, nano_graph, nano_heads, NanoWeights};
use crate::witness::{DataType, Value};
use vstd::prelude::*;

verus! {

/// The weights of block `i` are those of each kind that stand at `i`.
pub open spec fn has_llama_weights(t: LlamaBlock, w: LlamaWeights, i: int) -> bool {
    &&& is_value(t.weights[0], w.attn_norm_w@[i]@)
    &&& is_value(t.weights[1], w.attn_q_w@[i]@)
    &&& is_value(t.weights[2], w.attn_k_w@[i]@)
    &&& is_value(t.weights[3], w.attn_v_w@[i]@)
    &&& is_value(t.weights[4], w.attn_o_w@[i]@)
    &&& is_value(t.weights[5], w.proj_norm_w@[i]@)
    &&& is_value(t.weights[6], w.proj_1_w@[i]@)
    &&& is_value(t.weights[7], w.proj_2_w@[i]@)
    &&& is_value(t.weights[8], w.proj_3_w@[i]@)
}

/// The weights of block `i` are those of each kind that stand at `i`.
pub open spec fn has_nano_weights(t: NanogptBlock, w: NanoWeights, i: int) -> bool {
    &&& is_value(t.weights[0], w.attn_norm_w@[i]@)
    &&& is_value(t.weights[1], w.attn_q_w@[i]@)
    &&& is_value(t.weights[2], w.attn_k_w@[i]@)
    &&& is_value(t.weights[3], w.attn_v_w@[i]@)
    &&& is_value(t.weights[4], w.attn_o_w@[i]@)
    &&& is_value(t.weights[5], w.proj_norm_w@[i]@)
    &&& is_value(t.weights[6], w.proj_1_w@[i]@)
    &&& is_value(t.weights[7], w.proj_2_w@[i]@)
}

/// The sizes of the weights of LLaMA fit each other.
pub open spec fn llama_fits(
    w: LlamaWeights,
    n: usize,
    m: usize,
    vocab_size: usize,
    sf: usize,
) -> bool {
    let k = w.attn_norm_w@.len();
    &&& all_have(w.kinds(), k)
    &&& forall|i: int|
        0 <= i < k ==> llama_weights(#[trigger] layer_weights(w.kinds(), i), n, m, sf)
    &&& weighs(w.layer_norm_w@, seq![n], sf)
    &&& weighs(w.logits_w@, seq![n, vocab_size], sf)
}

/// The rows of a matrix for some tokens, as the input of a model.
pub open spec fn is_token_input(
    w_e: Tensor,
    ids: Seq<usize>,
    x: Tensor,
    s: usize,
    n: usize,
) -> bool {
    forall|i: int, k: int|
        0 <= i < s && 0 <= k < padded(n) ==> #[trigger] x.get(at3(0, i, k)) == w_e.get(
            at2(ids[i] as int, k),
        )
}

proof fn lemma_token_input(
    w_e: Tensor,
    ids: Seq<usize>,
    found: Tensor,
    x: Tensor,
    s: usize,
    n: usize,
)
    requires
        are_rows(w_e, ids, found, s, n),
        found.shape == seq![s, n],
        x == found.reshaped(seq![1, s, n]),
    ensures
        is_token_input(w_e, ids, x, s, n),
{
    assert forall|i: int, j: int| 0 <= i < s && 0 <= j < padded(n) implies #[trigger] x.get(
        at3(0, i, j),
    ) == w_e.get(at2(ids[i] as int, j)) by {
        lemma_matrix_place(s, n, i, j);
        assert(x.get(at3(0, i, j)) == found.get(at2(i, j)));
    }
}

/// Tensors of the weights of the blocks by their kinds.
proof fn lemma_block_weights(w: LlamaWeights, blocks: Seq<LlamaBlock>)
    requires
        all_have(w.kinds(), w.attn_norm_w@.len()),
        blocks.len() == w.attn_norm_w@.len(),
        forall|i: int|
            0 <= i < blocks.len() ==> are_values(
                (#[trigger] blocks[i]).weights,
                layer_weights(w.kinds(), i),
            ),
    ensures
        forall|i: int| 0 <= i < blocks.len() ==> has_llama_weights(#[trigger] blocks[i], w, i),
{
    let weights = w.kinds();
    assert forall|i: int| 0 <= i < blocks.len() implies has_llama_weights(
        #[trigger] blocks[i],
        w,
        i,
    ) by {
        let layer = layer_weights(weights, i);
        let ts = blocks[i].weights;
        assert(is_value(ts[0], layer[0]) && is_value(ts[1], layer[1]) && is_value(ts[2], layer[2]));
        assert(is_value(ts[3], layer[3]) && is_value(ts[4], layer[4]) && is_value(ts[5], layer[5]));
        assert(is_value(ts[6], layer[6]) && is_value(ts[7], layer[7]) && is_value(ts[8], layer[8]));
        assert(weights[1].len() > i && weights[2].len() > i && weights[3].len() > i);
        assert(weights[4].len() > i && weights[5].len() > i && weights[6].len() > i);
        assert(weights[7].len() > i && weights[8].len() > i);
    }
}

/// What the graph that checks a whole transcript computes: LLaMA, with heads whose width is a power
/// of two, on the rows of the embedding matrix for the tokens, each block with its weights; and the
/// margins of the tokens that are checked. The tensors of the embedding matrix, of the input, of
/// the model, and of the margins are given.
#[verifier::rlimit(20)]
pub proof fn lemma_oneshot_llama_run(
    sf_log: usize,
    table_size_log: usize,
    w_e: Value,
    w: LlamaWeights,
    num_heads: usize,
    head_dim: usize,
    seq_len: usize,
    vocab_size: usize,
    token_ids: Seq<usize>,
    cosines: Seq<i64>,
    sines: Seq<i64>,
    root: u32,
    n: usize,
    m: usize,
    run: Run,
) -> (r: (Tensor, Tensor, Rotary, LlamaRun, Tensor))
    requires
        272 * w.attn_norm_w@.len() + 61 <= usize::MAX,
        weighs(w_e, seq![vocab_size, n], sf_log),
        llama_fits(w, n, m, vocab_size, sf_log),
        selectable(seq_len as nat, vocab_size as nat, token_ids),
        vocab_size > 0,
        rotation_fits(head_dim as nat, seq_len as nat, cosines),
        rotation_fits(head_dim as nat, seq_len as nat, sines),
        n == num_heads * head_dim,
        head_dim * head_dim <= usize::MAX,
        padded(head_dim) == head_dim,
        sizes_fit(seq_len, num_heads, n, m),
        sf_log <= 22,
        run.computes(
            empty_graph(sf_log, table_size_log).oneshot_llama(
                w_e,
                w.kinds(),
                w.layer_norm_w@,
                w.logits_w@,
                num_heads,
                head_dim,
                seq_len,
                vocab_size,
                token_ids,
                cosines,
                sines,
                root,
            ).0,
        ),
        run.honest,
    ensures
        is_value(r.0, w_e),
        is_token_input(r.0, token_ids, r.1, seq_len, n),
        r.2.num_heads == num_heads,
        r.2.head_dim == head_dim,
        r.2.seq_len == seq_len,
        r.2.root == root,
        r.3.blocks.len() == w.attn_norm_w@.len(),
        forall|i: int|
            0 <= i < w.attn_norm_w@.len() ==> has_llama_weights(#[trigger] r.3.blocks[i], w, i),
        ({
            let (g, edges) = empty_graph(sf_log, table_size_log).oneshot_llama(
                w_e,
                w.kinds(),
                w.layer_norm_w@,
                w.logits_w@,
                num_heads,
                head_dim,
                seq_len,
                vocab_size,
                token_ids,
                cosines,
                sines,
                root,
            );
            let logits = run.on(edges.0);
            &&& is_llama(
                run,
                run.passes(g),
                r.1,
                w.kinds(),
                w.layer_norm_w@,
                w.logits_w@,
                r.2,
                vocab_size,
                cosines,
                sines,
                n,
                m,
                sf_log,
                r.3,
                logits,
            )
            &&& are_margins(logits, no_tokens(seq_len), r.4, seq_len, vocab_size)
        }),
{
    broadcast use lemma_ready_less, lemma_part_run, lemma_holds_run;

    let g = empty_graph(sf_log, table_size_log);
    let weights = w.kinds();
    let (layer_norm, logits_w) = (w.layer_norm_w@, w.logits_w@);
    assert(weights[0].len() == w.attn_norm_w@.len());
    let k = 272int * weights[0].len();
    assert(ready(g, k + 61)) by {
        reveal(ready);
    }
    assert(g.need(num_heads * head_dim <= usize::MAX) =~= g);
    let (g1, e) = g.param(w_e);
    lemma_param_fits(g, w_e);
    lemma_extends(g, g1, 1);
    let (g2, found) = g1.embedding_lookup(e, seq_len, vocab_size, token_ids);
    lemma_embedding_lookup_fits(g1, e, seq_len, vocab_size, token_ids, n, sf_log);
    lemma_extends(g1, g2, 4);
    let (g3, h) = g2.change_shape(found.0, seq![1, seq_len, n]);
    lemma_change_shape_fits(g2, found.0, seq![1, seq_len, n]);
    lemma_extends(g2, g3, 1);
    let (g4, logits) = g3.llama(
        h,
        weights,
        layer_norm,
        logits_w,
        num_heads,
        head_dim,
        seq_len,
        vocab_size,
        cosines,
        sines,
        root,
    );
    lemma_llama_fits(
        g3,
        h,
        weights,
        layer_norm,
        logits_w,
        num_heads,
        head_dim,
        seq_len,
        vocab_size,
        cosines,
        sines,
        root,
        n,
        m,
    );
    lemma_extends(g3, g4, k + 48);
    let tokens = no_tokens(seq_len);
    let (g5, selector) = g4.argmax_check(logits[0], seq_len, vocab_size, tokens);
    let d = lemma_argmax_check_run(g4, logits[0], seq_len, vocab_size, tokens, sf_log, run);
    assert(run.computes(g4));
    let (p, t) = lemma_llama_run(
        g3,
        h,
        weights,
        layer_norm,
        logits_w,
        num_heads,
        head_dim,
        seq_len,
        vocab_size,
        cosines,
        sines,
        root,
        n,
        m,
        run,
    );
    assert(run.computes(g3));
    lemma_change_shape_part(g2, found.0, seq![1, seq_len, n]);
    assert(run.computes(g2));
    lemma_embedding_lookup_run(g1, e, seq_len, vocab_size, token_ids, n, sf_log, run);
    assert(run.computes(g1));
    lemma_param_run(g, w_e, run);
    lemma_change_shape_run(g2, found.0, seq![1, seq_len, n], run);
    let x = run.on(h);
    lemma_token_input(run.on(e), token_ids, run.on(found.0), x, seq_len, n);
    lemma_llama_less(
        run,
        run.passes(g4),
        run.passes(g5),
        x,
        weights,
        layer_norm,
        logits_w,
        p,
        vocab_size,
        cosines,
        sines,
        n,
        m,
        sf_log,
        t,
        run.on(logits[0]),
    );
    lemma_llama_weights(
        run,
        run.passes(g5),
        x,
        weights,
        layer_norm,
        logits_w,
        p,
        vocab_size,
        cosines,
        sines,
        n,
        m,
        sf_log,
        t,
        run.on(logits[0]),
    );
    lemma_block_weights(w, t.blocks);
    (run.on(e), x, p, t, run.on(d))
}

/// What the graph of nanoGPT on one-hot rows computes: the model with the heads, the reciprocal
/// root of their width and the slope of the activation, each block with its weights.
pub proof fn lemma_nano_graph_run(
    w: NanoWeights,
    seq_len: usize,
    d_sqrt_recip: u32,
    gelu_slope: u32,
    sf_log: usize,
    table_size_log: usize,
    run: Run,
) -> (t: NanogptRun)
    requires
        w.random(seq_len, sf_log),
        sizes_fit(seq_len, NANO_N_HEAD, NANO_N_EMBD, NANO_MLP_HIDDEN),
        sf_log <= 22,
        run.computes(
            nano_graph(w, seq_len, d_sqrt_recip, gelu_slope, sf_log, table_size_log).0,
        ),
        run.honest,
    ensures
        t.blocks.len() == NANO_N_LAYER,
        forall|i: int| 0 <= i < NANO_N_LAYER ==> has_nano_weights(#[trigger] t.blocks[i], w, i),
        ({
            let (g, edges) = nano_graph(
                w,
                seq_len,
                d_sqrt_recip,
                gelu_slope,
                sf_log,
                table_size_log,
            );
            let p = Heads {
                n_head: NANO_N_HEAD,
                head_dim: NANO_HEAD_DIM,
                seq_len,
                root: d_sqrt_recip,
                slope: gelu_slope,
            };
            is_nanogpt(
                run,
                run.passes(g),
                run.on(edges.0),
                w.wte@,
                w.pos_emb@,
                w.kinds(),
                w.layer_norm_w@,
                NANO_N_LAYER as nat,
                p,
                NANO_VOCAB_SIZE,
                NANO_N_EMBD,
                NANO_MLP_HIDDEN,
                sf_log,
                t,
                run.on(edges.1),
            )
        }),
{
    let g = empty_graph(sf_log, table_size_log);
    let shape = seq![1, seq_len, NANO_VOCAB_SIZE];
    let (g1, x) = g.input(shape, DataType::Float);
    assert(ready(g1, 289int * NANO_N_LAYER + 72)) by {
        reveal(ready);
    }
    lemma_random_layers(w, seq_len, sf_log);
    let p = nano_heads(seq_len, d_sqrt_recip, gelu_slope);
    assert(p.n_head * p.head_dim == NANO_N_EMBD) by (nonlinear_arith)
        requires
            p.n_head == 4,
            p.head_dim == 16,
            NANO_N_EMBD == 64,
    ;
    let t = lemma_nanogpt_run(
        g1,
        x,
        w.wte@,
        w.pos_emb@,
        w.kinds(),
        w.layer_norm_w@,
        w.attention_mask@,
        NANO_N_LAYER as nat,
        p,
        NANO_VOCAB_SIZE,
        NANO_N_EMBD,
        NANO_MLP_HIDDEN,
        run,
    );
    assert forall|i: int| 0 <= i < NANO_N_LAYER implies has_nano_weights(
        #[trigger] t.blocks[i],
        w,
        i,
    ) by {
        let layer = layer_weights(w.kinds(), i);
        let ts = t.blocks[i].weights;
        assert(is_value(ts[0], layer[0]) && is_value(ts[1], layer[1]) && is_value(ts[2], layer[2]));
        assert(is_value(ts[3], layer[3]) && is_value(ts[4], layer[4]) && is_value(ts[5], layer[5]));
        assert(is_value(ts[6], layer[6]) && is_value(ts[7], layer[7]));
    }
    t
}

} // verus!
