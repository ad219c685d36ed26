//! The layers of nanoGPT, without biases.
use crate::arith::num_vars;
use crate::dag::builder::{one_edge, three_dims, two_edges, DagBuilder};
use crate::dag::graph::Graph;
use crate::dag::llama::{all_have, layer_weights, add_rms_norm, tensor_values, AttentionEdges};
use crate::dag::EdgeId;
use crate::field::Fr;
use crate::shape::{constant_table, padded_constant};
use crate::witness::{Value, Witness};
use vstd::prelude::*;

verus! {

broadcast use crate::dag::graph::group_ok;

/// The number of blocks.
pub const NANO_N_LAYER: usize = 4;

/// The number of attention heads.
pub const NANO_N_HEAD: usize = 4;

/// The width of an embedding.
pub const NANO_N_EMBD: usize = 64;

/// The width of an attention head.
pub const NANO_HEAD_DIM: usize = 16;

/// The width of the hidden layer of a projection.
pub const NANO_MLP_HIDDEN: usize = 256;

/// The number of tokens.
pub const NANO_VOCAB_SIZE: usize = 65;

/// The largest number of positions.
pub const NANO_BLOCK_SIZE: usize = 64;

impl Graph {
    /// The last dimension of a tensor shifted to mean zero and scaled to a root mean square of one,
    /// and the weights applied.
    #[verifier::opaque]
    pub open spec fn layer_norm(self, x: usize, w: usize) -> (Graph, Seq<usize>) {
        let shape = self.value(x).shape;
        let (seq, n) = (shape[1], shape.last());
        let g = self.need(self.known(x) && shape.len() >= 2);
        let (g, sum) = g.einsum("bsi->bs"@, seq![x], false);
        let (g, mean) = g.checked_mean(sum[0], n, seq![1, seq, 1]);
        let (g, centred) = g.minus(x, mean);
        let (g, centred) = g.mask(centred[0], seq![1, seq, n]);
        let (g, out) = g.rms_norm(centred, w);
        (g, seq![out[0]])
    }

    /// The projection `w_2 gelu(w_1 x)`, with `gelu(h)` approximated by `h sigmoid(slope h)`.
    #[verifier::opaque]
    pub open spec fn gelu_mlp(self, x: usize, w_1: usize, w_2: usize, slope: u32) -> (
        Graph,
        Seq<usize>,
    ) {
        let (g, h_1) = self.einsum("bsi,ij->bsj"@, seq![x, w_1], true);
        let shape = g.value(h_1[0]).shape;
        let g = g.need(g.known(h_1[0]) && num_vars(shape) < usize::BITS);
        let (g, constant) = g.constant(shape, constant_table(shape, slope as int), self.sf_log);
        let (g, scaled) = g.einsum("bsi,bsi->bsi"@, seq![h_1[0], constant], true);
        let (g, sigmoid) = g.sigmoid(scaled[0]);
        let (g, h_1) = g.einsum("bsi,bsi->bsi"@, seq![h_1[0], sigmoid[0]], true);
        let (g, h_2) = g.einsum("bsi,ij->bsj"@, seq![h_1[0], w_2], true);
        (g, seq![h_2[0]])
    }

    /// Attention without position embedding.
    #[verifier::opaque]
    pub open spec fn plain_attention(self, x: usize, w: AttentionEdges, p: Heads) -> (
        Graph,
        Seq<usize>,
    ) {
        let g = self.need(p.n_head * p.head_dim <= usize::MAX);
        let (g, parts) = g.projections(x, w, seq![1, p.seq_len, p.n_head, p.head_dim]);
        g.attend(parts, w.o, p.root, p.seq_len, (p.n_head * p.head_dim) as usize)
    }

    /// A block: attention and the projection, each of the normalised input and each added to its
    /// input. The weights are, in this order, those of the first normalisation, of the queries,
    /// keys, values and outputs of the attention, of the second normalisation and of the
    /// projection.
    #[verifier::opaque]
    pub open spec fn nanogpt_block(self, x: usize, weights: Seq<Value>, p: Heads) -> (
        Graph,
        Seq<usize>,
    ) {
        let w = AttentionEdges {
            q: self.edge_after(1),
            k: self.edge_after(2),
            v: self.edge_after(3),
            o: self.edge_after(4),
        };
        let g = self.params(weights);
        let (g, norm) = g.layer_norm(x, self.edge_after(0));
        let (g, attention) = g.plain_attention(norm[0], w, p);
        let (g, middle) = g.plus(attention[0], x);
        let (g, norm) = g.layer_norm(middle[0], self.edge_after(5));
        let (g, projection) = g.gelu_mlp(
            norm[0],
            self.edge_after(6),
            self.edge_after(7),
            p.slope,
        );
        let (g, out) = g.plus(projection[0], middle[0]);
        (g, seq![out[0]])
    }

    /// The first `k` blocks, with the weights of each kind by block.
    pub open spec fn nanogpt_blocks(self, x: usize, weights: Seq<Seq<Value>>, p: Heads, k: nat) -> (
        Graph,
        usize,
    )
        decreases k,
    {
        if k == 0 {
            (self, x)
        } else {
            let (g, y) = self.nanogpt_blocks(x, weights, p, (k - 1) as nat);
            let (g, out) = g.nanogpt_block(y, layer_weights(weights, k - 1), p);
            (g, out[0])
        }
    }

    /// Token embeddings, by the product of one-hot rows with the weights, plus position embeddings.
    #[verifier::opaque]
    pub open spec fn embeddings(self, onehot: usize, wte: usize, pos: usize) -> (
        Graph,
        Seq<usize>,
    ) {
        let (g, emb) = self.einsum("btv,ve->bte"@, seq![onehot, wte], true);
        let (g, out) = g.plus(emb[0], pos);
        (g, seq![out[0]])
    }

    /// The logits, by the product with the transposed weights of the embedding.
    #[verifier::opaque]
    pub open spec fn lm_head(self, x: usize, w: usize) -> (Graph, Seq<usize>) {
        let (g, out) = self.einsum("bte,ve->btv"@, seq![x, w], true);
        (g, seq![out[0]])
    }

    /// The whole model: embeddings, blocks, the last normalisation and the logits. The attention
    /// mask is a constant that no layer reads.
    pub open spec fn nanogpt(
        self,
        onehot: usize,
        wte: Value,
        pos_emb: Value,
        weights: Seq<Seq<Value>>,
        norm_w: Value,
        mask: Value,
        n_layer: nat,
        p: Heads,
    ) -> (Graph, Seq<usize>) {
        let g = self.need(all_have(weights, n_layer));
        let (g, wte) = g.param(wte);
        let (g, pos) = g.param(pos_emb);
        let (g, emb) = g.embeddings(onehot, wte, pos);
        let (g, _) = g.param(mask);
        let (g, x) = g.nanogpt_blocks(emb[0], weights, p, n_layer);
        let (g, w) = g.param(norm_w);
        let (g, norm) = g.layer_norm(x, w);
        let (g, logits) = g.lm_head(norm[0], wte);
        (g, seq![logits[0]])
    }
}

/// The sizes of an attention, the reciprocal of the square root of the width of a head, and the
/// slope of the activation.
pub ghost struct Heads {
    pub n_head: usize,
    pub head_dim: usize,
    pub seq_len: usize,
    pub root: u32,
    pub slope: u32,
}

pub broadcast proof fn lemma_layer_norm_ok(g: Graph, x: usize, w: usize)
    ensures
        (#[trigger] g.layer_norm(x, w)).0.ok ==> g.ok,
{
    broadcast use crate::dag::llama::group_layer_ok;

    reveal(Graph::layer_norm);
}

pub broadcast proof fn lemma_gelu_mlp_ok(g: Graph, x: usize, a: usize, b: usize, slope: u32)
    ensures
        (#[trigger] g.gelu_mlp(x, a, b, slope)).0.ok ==> g.ok,
{
    reveal(Graph::gelu_mlp);
}

pub broadcast proof fn lemma_plain_attention_ok(g: Graph, x: usize, w: AttentionEdges, p: Heads)
    ensures
        (#[trigger] g.plain_attention(x, w, p)).0.ok ==> g.ok,
{
    broadcast use crate::dag::llama::group_layer_ok;

    reveal(Graph::plain_attention);
}

pub broadcast proof fn lemma_embeddings_ok(g: Graph, onehot: usize, wte: usize, pos: usize)
    ensures
        (#[trigger] g.embeddings(onehot, wte, pos)).0.ok ==> g.ok,
{
    reveal(Graph::embeddings);
}

pub broadcast proof fn lemma_lm_head_ok(g: Graph, x: usize, w: usize)
    ensures
        (#[trigger] g.lm_head(x, w)).0.ok ==> g.ok,
{
    reveal(Graph::lm_head);
}

/// Every layer only makes a graph that is `ok` from one that is.
pub broadcast group group_nano_ok {
    lemma_layer_norm_ok,
    lemma_gelu_mlp_ok,
    lemma_plain_attention_ok,
    lemma_embeddings_ok,
    lemma_lm_head_ok,
}

pub broadcast proof fn lemma_nanogpt_block_ok(g: Graph, x: usize, weights: Seq<Value>, p: Heads)
    ensures
        (#[trigger] g.nanogpt_block(x, weights, p)).0.ok ==> g.ok,
{
    broadcast use crate::dag::llama::group_layer_ok;
    broadcast use group_nano_ok;

    reveal(Graph::nanogpt_block);
}

pub proof fn lemma_nanogpt_blocks_ok(
    g: Graph,
    x: usize,
    weights: Seq<Seq<Value>>,
    p: Heads,
    j: nat,
    k: nat,
)
    requires
        j <= k,
    ensures
        g.nanogpt_blocks(x, weights, p, k).0.ok ==> g.nanogpt_blocks(x, weights, p, j).0.ok,
    decreases k - j,
{
    if j < k {
        lemma_nanogpt_blocks_ok(g, x, weights, p, j, (k - 1) as nat);
        let (h, y) = g.nanogpt_blocks(x, weights, p, (k - 1) as nat);
        lemma_nanogpt_block_ok(h, y, layer_weights(weights, k - 1), p);
    }
}

/// Normalises the last dimension of a tensor of shape `(1, positions, width)`: its mean is
/// subtracted, it is divided by its root mean square, and the weights are applied.
pub(crate) fn add_layer_norm(g: &mut DagBuilder, x: EdgeId, w_e: EdgeId) -> (r: Vec<EdgeId>)
    requires
        old(g)@.layer_norm(x, w_e).0.ok,
    ensures
        (final(g)@, r@) == old(g)@.layer_norm(x, w_e),
        r@.len() == 1,
{
    broadcast use crate::dag::llama::group_layer_ok;

    proof {
        reveal(Graph::layer_norm);
    }
    let shape = g.shape_of(x);
    let seq = shape[1];
    let n = shape[shape.len() - 1];
    let sum = g.einsum_str("bsi->bs", one_edge(x), false)[0];
    let mean = g.checked_mean(sum, n, seq);
    let centred = g.sub(x, mean)[0];
    let centred = g.mask(centred, three_dims(1, seq, n));
    let out = add_rms_norm(g, centred, w_e)[0];
    one_edge(out)
}

/// The projection. `gelu_slope` is the slope of the sigmoid in the approximation of the activation,
/// scaled and rounded.
pub(crate) fn add_gelu_mlp(
    g: &mut DagBuilder,
    x: EdgeId,
    w_1_e: EdgeId,
    w_2_e: EdgeId,
    gelu_slope: u32,
) -> (r: Vec<EdgeId>)
    requires
        old(g)@.gelu_mlp(x, w_1_e, w_2_e, gelu_slope).0.ok,
    ensures
        (final(g)@, r@) == old(g)@.gelu_mlp(x, w_1_e, w_2_e, gelu_slope),
        r@.len() == 1,
{
    proof {
        reveal(Graph::gelu_mlp);
        crate::field::lemma_modulus_bounds();
    }
    let sf_log = g.sf_log;
    let h_1 = g.einsum_str("bsi,ij->bsj", two_edges(x, w_1_e), true)[0];
    let shape = g.shape_of(h_1);
    let data = padded_constant(shape.as_slice(), Fr::from_u64(gelu_slope as u64));
    let constant = g.constant(shape, data, sf_log);
    let scaled = g.einsum_str("bsi,bsi->bsi", two_edges(h_1, constant), true)[0];
    let sigmoid = g.sigmoid(scaled)[0];
    let h_1 = g.einsum_str("bsi,bsi->bsi", two_edges(h_1, sigmoid), true)[0];
    let h_2 = g.einsum_str("bsi,ij->bsj", two_edges(h_1, w_2_e), true)[0];
    one_edge(h_2)
}

/// Attention. The causal mask is made from the number of positions; the edge of the attention mask
/// is not read. `d_sqrt_recip` is the reciprocal of the square root of the width of a head, scaled
/// and rounded.
pub(crate) fn add_plain_attention(
    g: &mut DagBuilder,
    inp: EdgeId,
    _attention_mask: EdgeId,
    w_q_e: EdgeId,
    w_k_e: EdgeId,
    w_v_e: EdgeId,
    w_o_e: EdgeId,
    n_head: usize,
    head_dim: usize,
    seq_len: usize,
    d_sqrt_recip: u32,
) -> (r: Vec<EdgeId>)
    requires
        old(g)@.plain_attention(
            inp,
            (AttentionEdges { q: w_q_e, k: w_k_e, v: w_v_e, o: w_o_e }),
            (Heads { n_head, head_dim, seq_len, root: d_sqrt_recip, slope: 0 }),
        ).0.ok,
    ensures
        (final(g)@, r@) == old(g)@.plain_attention(
            inp,
            (AttentionEdges { q: w_q_e, k: w_k_e, v: w_v_e, o: w_o_e }),
            (Heads { n_head, head_dim, seq_len, root: d_sqrt_recip, slope: 0 }),
        ),
        r@.len() == 1,
{
    broadcast use crate::dag::llama::group_layer_ok;

    proof {
        reveal(Graph::plain_attention);
    }
    assert(g@.need(n_head * head_dim <= usize::MAX) == g@);
    let parts = g.projections(
        inp,
        w_q_e,
        w_k_e,
        w_v_e,
        seq_len,
        n_head,
        head_dim,
        Ghost(w_o_e),
    );
    g.attend(parts, w_o_e, d_sqrt_recip, seq_len, n_head * head_dim)
}

/// A block: attention and the projection, each of the normalised input and each added to its input.
pub(crate) fn add_nanogpt_block(
    g: &mut DagBuilder,
    x: EdgeId,
    attn_norm_w: Witness,
    attn_q_w: Witness,
    attn_k_w: Witness,
    attn_v_w: Witness,
    attn_o_w: Witness,
    proj_norm_w: Witness,
    proj_1_w: Witness,
    proj_2_w: Witness,
    attention_mask: EdgeId,
    n_head: usize,
    head_dim: usize,
    seq_len: usize,
    d_sqrt_recip: u32,
    gelu_slope: u32,
) -> (r: Vec<EdgeId>)
    requires
        old(g)@.nanogpt_block(
            x,
            seq![
                attn_norm_w@,
                attn_q_w@,
                attn_k_w@,
                attn_v_w@,
                attn_o_w@,
                proj_norm_w@,
                proj_1_w@,
                proj_2_w@,
            ],
            (Heads { n_head, head_dim, seq_len, root: d_sqrt_recip, slope: gelu_slope }),
        ).0.ok,
    ensures
        (final(g)@, r@) == old(g)@.nanogpt_block(
            x,
            seq![
                attn_norm_w@,
                attn_q_w@,
                attn_k_w@,
                attn_v_w@,
                attn_o_w@,
                proj_norm_w@,
                proj_1_w@,
                proj_2_w@,
            ],
            (Heads { n_head, head_dim, seq_len, root: d_sqrt_recip, slope: gelu_slope }),
        ),
        r@.len() == 1,
{
    broadcast use crate::dag::llama::group_layer_ok;
    broadcast use group_nano_ok;

    proof {
        reveal(Graph::nanogpt_block);
    }
    let first = g.num_edges;
    let mut tensors: Vec<Witness> = Vec::with_capacity(8);
    let ghost values = seq![
        attn_norm_w@,
        attn_q_w@,
        attn_k_w@,
        attn_v_w@,
        attn_o_w@,
        proj_norm_w@,
        proj_1_w@,
        proj_2_w@,
    ];
    tensors.push(attn_norm_w);
    tensors.push(attn_q_w);
    tensors.push(attn_k_w);
    tensors.push(attn_v_w);
    tensors.push(attn_o_w);
    tensors.push(proj_norm_w);
    tensors.push(proj_1_w);
    tensors.push(proj_2_w);
    assert(tensor_values(tensors@) =~= values);
    let ghost before = g@;
    assert(before.params(values).ok);
    assert(first + 8 <= usize::MAX);
    g.params(tensors);
    let norm = add_layer_norm(g, x, first)[0];
    proof {
        let w = AttentionEdges {
            q: before.edge_after(1),
            k: before.edge_after(2),
            v: before.edge_after(3),
            o: before.edge_after(4),
        };
        let p = Heads { n_head, head_dim, seq_len, root: d_sqrt_recip, slope: gelu_slope };
        let q = Heads { n_head, head_dim, seq_len, root: d_sqrt_recip, slope: 0 };
        lemma_slope_unused(g@, norm, w, p, q);
    }
    let attention = add_plain_attention(
        g,
        norm,
        attention_mask,
        first + 1,
        first + 2,
        first + 3,
        first + 4,
        n_head,
        head_dim,
        seq_len,
        d_sqrt_recip,
    )[0];
    let middle = g.add(attention, x)[0];
    let norm = add_layer_norm(g, middle, first + 5)[0];
    let projection = add_gelu_mlp(g, norm, first + 6, first + 7, gelu_slope)[0];
    let out = g.add(projection, middle)[0];
    one_edge(out)
}

/// The attention does not depend on the slope of the activation.
proof fn lemma_slope_unused(g: Graph, x: usize, w: AttentionEdges, p: Heads, q: Heads)
    requires
        p == (Heads { slope: p.slope, ..q }),
    ensures
        g.plain_attention(x, w, p) == g.plain_attention(x, w, q),
{
    reveal(Graph::plain_attention);
}

/// Token embeddings, by the product of one-hot rows with the weights, plus position embeddings.
pub(crate) fn add_embeddings(
    g: &mut DagBuilder,
    onehot: EdgeId,
    wte_e: EdgeId,
    pos_emb_e: EdgeId,
) -> (r: Vec<EdgeId>)
    requires
        old(g)@.embeddings(onehot, wte_e, pos_emb_e).0.ok,
    ensures
        (final(g)@, r@) == old(g)@.embeddings(onehot, wte_e, pos_emb_e),
        r@.len() == 1,
{
    proof {
        reveal(Graph::embeddings);
    }
    let emb = g.einsum_str("btv,ve->bte", two_edges(onehot, wte_e), true)[0];
    let out = g.add(emb, pos_emb_e)[0];
    one_edge(out)
}

/// The logits, by the product with the transposed weights of the embedding.
pub(crate) fn add_lm_head(g: &mut DagBuilder, x: EdgeId, lm_head_w_e: EdgeId) -> (r: Vec<EdgeId>)
    requires
        old(g)@.lm_head(x, lm_head_w_e).0.ok,
    ensures
        (final(g)@, r@) == old(g)@.lm_head(x, lm_head_w_e),
        r@.len() == 1,
{
    proof {
        reveal(Graph::lm_head);
    }
    let out = g.einsum_str("bte,ve->btv", two_edges(x, lm_head_w_e), true)[0];
    one_edge(out)
}

/// nanoGPT: embeddings, `n_layer` blocks, the last normalisation and the logits, whose weights are
/// those of the embedding. The weights of each kind come by block; `d_sqrt_recip` is the reciprocal
/// of the square root of the width of a head and `gelu_slope` the slope of the activation, both
/// scaled and rounded.
pub(crate) fn add_nanogpt(
    g: &mut DagBuilder,
    onehot: EdgeId,
    wte: Witness,
    pos_emb: Witness,
    attn_norm_w_vec: Vec<Witness>,
    attn_q_w_vec: Vec<Witness>,
    attn_k_w_vec: Vec<Witness>,
    attn_v_w_vec: Vec<Witness>,
    attn_o_w_vec: Vec<Witness>,
    proj_norm_w_vec: Vec<Witness>,
    proj_1_w_vec: Vec<Witness>,
    proj_2_w_vec: Vec<Witness>,
    layer_norm_w: Witness,
    attention_mask: Witness,
    n_layer: usize,
    n_head: usize,
    head_dim: usize,
    seq_len: usize,
    d_sqrt_recip: u32,
    gelu_slope: u32,
) -> (r: Vec<EdgeId>)
    requires
        old(g)@.nanogpt(
            onehot,
            wte@,
            pos_emb@,
            seq![
                tensor_values(attn_norm_w_vec@),
                tensor_values(attn_q_w_vec@),
                tensor_values(attn_k_w_vec@),
                tensor_values(attn_v_w_vec@),
                tensor_values(attn_o_w_vec@),
                tensor_values(proj_norm_w_vec@),
                tensor_values(proj_1_w_vec@),
                tensor_values(proj_2_w_vec@),
            ],
            layer_norm_w@,
            attention_mask@,
            n_layer as nat,
            (Heads { n_head, head_dim, seq_len, root: d_sqrt_recip, slope: gelu_slope }),
        ).0.ok,
    ensures
        (final(g)@, r@) == old(g)@.nanogpt(
            onehot,
            wte@,
            pos_emb@,
            seq![
                tensor_values(attn_norm_w_vec@),
                tensor_values(attn_q_w_vec@),
                tensor_values(attn_k_w_vec@),
                tensor_values(attn_v_w_vec@),
                tensor_values(attn_o_w_vec@),
                tensor_values(proj_norm_w_vec@),
                tensor_values(proj_1_w_vec@),
                tensor_values(proj_2_w_vec@),
            ],
            layer_norm_w@,
            attention_mask@,
            n_layer as nat,
            (Heads { n_head, head_dim, seq_len, root: d_sqrt_recip, slope: gelu_slope }),
        ),
        r@.len() == 1,
{
    broadcast use group_nano_ok;

    let ghost weights = seq![
        tensor_values(attn_norm_w_vec@),
        tensor_values(attn_q_w_vec@),
        tensor_values(attn_k_w_vec@),
        tensor_values(attn_v_w_vec@),
        tensor_values(attn_o_w_vec@),
        tensor_values(proj_norm_w_vec@),
        tensor_values(proj_1_w_vec@),
        tensor_values(proj_2_w_vec@),
    ];
    let ghost p = Heads { n_head, head_dim, seq_len, root: d_sqrt_recip, slope: gelu_slope };
    let ghost (h, _) = g@.need(all_have(weights, n_layer as nat)).param(wte@);
    let ghost (h, pos_edge) = h.param(pos_emb@);
    let ghost (h, emb_edges) = h.embeddings(onehot, g@.num_edges, pos_edge);
    let ghost (h, _) = h.param(attention_mask@);
    proof {
        lemma_nanogpt_blocks_ok(h, emb_edges[0], weights, p, 0, n_layer as nat);
        assert(h.nanogpt_blocks(emb_edges[0], weights, p, 0) == (h, emb_edges[0]));
    }
    let wte_e = g.param(wte);
    let pos_emb_e = g.param(pos_emb);
    let first = add_embeddings(g, onehot, wte_e, pos_emb_e)[0];
    let mask_e = g.param(attention_mask);
    assert(g@ == h && first == emb_edges[0]);
    let mut x = first;
    let mut i: usize = 0;
    while i < n_layer
        invariant
            i <= n_layer,
            weights == seq![
                tensor_values(attn_norm_w_vec@),
                tensor_values(attn_q_w_vec@),
                tensor_values(attn_k_w_vec@),
                tensor_values(attn_v_w_vec@),
                tensor_values(attn_o_w_vec@),
                tensor_values(proj_norm_w_vec@),
                tensor_values(proj_1_w_vec@),
                tensor_values(proj_2_w_vec@),
            ],
            all_have(weights, n_layer as nat),
            p == (Heads { n_head, head_dim, seq_len, root: d_sqrt_recip, slope: gelu_slope }),
            (g@, x) == h.nanogpt_blocks(first, weights, p, i as nat),
            h.nanogpt_blocks(first, weights, p, n_layer as nat).0.ok,
        decreases n_layer - i,
    {
        proof {
            lemma_nanogpt_blocks_ok(h, first, weights, p, (i + 1) as nat, n_layer as nat);
            assert(weights[0].len() >= n_layer);
            assert(weights[1].len() >= n_layer);
            assert(weights[2].len() >= n_layer);
            assert(weights[3].len() >= n_layer);
            assert(weights[4].len() >= n_layer);
            assert(weights[5].len() >= n_layer);
            assert(weights[6].len() >= n_layer);
            assert(weights[7].len() >= n_layer);
            assert(layer_weights(weights, i as int) =~= seq![
                attn_norm_w_vec@[i as int]@,
                attn_q_w_vec@[i as int]@,
                attn_k_w_vec@[i as int]@,
                attn_v_w_vec@[i as int]@,
                attn_o_w_vec@[i as int]@,
                proj_norm_w_vec@[i as int]@,
                proj_1_w_vec@[i as int]@,
                proj_2_w_vec@[i as int]@,
            ]);
        }
        let out = add_nanogpt_block(
            g,
            x,
            attn_norm_w_vec[i].clone(),
            attn_q_w_vec[i].clone(),
            attn_k_w_vec[i].clone(),
            attn_v_w_vec[i].clone(),
            attn_o_w_vec[i].clone(),
            proj_norm_w_vec[i].clone(),
            proj_1_w_vec[i].clone(),
            proj_2_w_vec[i].clone(),
            mask_e,
            n_head,
            head_dim,
            seq_len,
            d_sqrt_recip,
            gelu_slope,
        );
        x = out[0];
        i += 1;
    }
    let norm_w = g.param(layer_norm_w);
    let norm = add_layer_norm(g, x, norm_w)[0];
    let logits = add_lm_head(g, norm, wte_e)[0];
    one_edge(logits)
}

/// The layer that normalises the last dimension of a tensor of shape `(1, positions, width)`: its mean
/// is subtracted, it is divided by its root mean square, and the weights are applied.
pub fn nanogpt_layer_norm(
    w_e: EdgeId,
) -> (f: impl FnOnce(&mut DagBuilder, &[EdgeId]) -> Vec<EdgeId>)
    ensures
        forall|g: &mut DagBuilder, x: &[EdgeId]|
            x@.len() == 1 && (*g)@.layer_norm(
                x@[0],
                w_e,
            ).0.ok ==> #[trigger] call_requires(f, (g, x)),
        forall|g: &mut DagBuilder, x: &[EdgeId], r: Vec<EdgeId>| #[trigger]
            call_ensures(f, (g, x), r) ==> ((*final(g))@, r@) == (*g)@.layer_norm(x@[0], w_e),
{
    move |g: &mut DagBuilder, x: &[EdgeId]| -> (r: Vec<EdgeId>)
        requires
            x@.len() == 1,
            old(g)@.layer_norm(x@[0], w_e).0.ok,
        ensures
            (final(g)@, r@) == old(g)@.layer_norm(x@[0], w_e),
        { add_layer_norm(g, x[0], w_e) }
}

/// The layer of the projection. `gelu_slope` is the slope of the sigmoid in the approximation of the
/// activation, scaled and rounded.
pub fn nanogpt_mlp(
    w_1_e: EdgeId,
    w_2_e: EdgeId,
    gelu_slope: u32,
) -> (f: impl FnOnce(&mut DagBuilder, &[EdgeId]) -> Vec<EdgeId>)
    ensures
        forall|g: &mut DagBuilder, x: &[EdgeId]|
            x@.len() == 1 && (*g)@.gelu_mlp(
                x@[0],
                w_1_e,
                w_2_e,
                gelu_slope,
            ).0.ok ==> #[trigger] call_requires(f, (g, x)),
        forall|g: &mut DagBuilder, x: &[EdgeId], r: Vec<EdgeId>| #[trigger]
            call_ensures(f, (g, x), r) ==> ((*final(g))@, r@) == (*g)@.gelu_mlp(
                x@[0],
                w_1_e,
                w_2_e,
                gelu_slope,
            ),
{
    move |g: &mut DagBuilder, x: &[EdgeId]| -> (r: Vec<EdgeId>)
        requires
            x@.len() == 1,
            old(g)@.gelu_mlp(x@[0], w_1_e, w_2_e, gelu_slope).0.ok,
        ensures
            (final(g)@, r@) == old(g)@.gelu_mlp(x@[0], w_1_e, w_2_e, gelu_slope),
        { add_gelu_mlp(g, x[0], w_1_e, w_2_e, gelu_slope) }
}

/// The layer of attention. The second input is an attention mask, which is not read: the causal mask
/// is made from the number of positions. `d_sqrt_recip` is the reciprocal of the square root of the
/// width of a head, scaled and rounded.
pub fn nanogpt_attention(
    w_q_e: EdgeId,
    w_k_e: EdgeId,
    w_v_e: EdgeId,
    w_o_e: EdgeId,
    n_head: usize,
    head_dim: usize,
    seq_len: usize,
    d_sqrt_recip: u32,
) -> (f: impl FnOnce(&mut DagBuilder, &[EdgeId]) -> Vec<EdgeId>)
    ensures
        forall|g: &mut DagBuilder, x: &[EdgeId]|
            x@.len() == 2 && (*g)@.plain_attention(
                x@[0],
                (AttentionEdges { q: w_q_e, k: w_k_e, v: w_v_e, o: w_o_e }),
                (Heads { n_head, head_dim, seq_len, root: d_sqrt_recip, slope: 0 }),
            ).0.ok ==> #[trigger] call_requires(f, (g, x)),
        forall|g: &mut DagBuilder, x: &[EdgeId], r: Vec<EdgeId>| #[trigger]
            call_ensures(f, (g, x), r) ==> ((*final(g))@, r@) == (*g)@.plain_attention(
                x@[0],
                (AttentionEdges { q: w_q_e, k: w_k_e, v: w_v_e, o: w_o_e }),
                (Heads { n_head, head_dim, seq_len, root: d_sqrt_recip, slope: 0 }),
            ),
{
    move |g: &mut DagBuilder, x: &[EdgeId]| -> (r: Vec<EdgeId>)
        requires
            x@.len() == 2,
            old(g)@.plain_attention(
                x@[0],
                (AttentionEdges { q: w_q_e, k: w_k_e, v: w_v_e, o: w_o_e }),
                (Heads { n_head, head_dim, seq_len, root: d_sqrt_recip, slope: 0 }),
            ).0.ok,
        ensures
            (final(g)@, r@) == old(g)@.plain_attention(
                x@[0],
                (AttentionEdges { q: w_q_e, k: w_k_e, v: w_v_e, o: w_o_e }),
                (Heads { n_head, head_dim, seq_len, root: d_sqrt_recip, slope: 0 }),
            ),
        { 
            add_plain_attention(
                g,
                x[0],
                x[1],
                w_q_e,
                w_k_e,
                w_v_e,
                w_o_e,
                n_head,
                head_dim,
                seq_len,
                d_sqrt_recip,
            )
         }
}

/// The layer of a block: attention and the projection, each of the normalised input and each added to
/// its input.
pub fn nanogpt_block(
    attn_norm_w: Witness,
    attn_q_w: Witness,
    attn_k_w: Witness,
    attn_v_w: Witness,
    attn_o_w: Witness,
    proj_norm_w: Witness,
    proj_1_w: Witness,
    proj_2_w: Witness,
    attention_mask: EdgeId,
    n_head: usize,
    head_dim: usize,
    seq_len: usize,
    d_sqrt_recip: u32,
    gelu_slope: u32,
) -> (f: impl FnOnce(&mut DagBuilder, &[EdgeId]) -> Vec<EdgeId>)
    ensures
        forall|g: &mut DagBuilder, x: &[EdgeId]|
            x@.len() == 1 && (*g)@.nanogpt_block(
                x@[0],
                seq![
                    attn_norm_w@,
                    attn_q_w@,
                    attn_k_w@,
                    attn_v_w@,
                    attn_o_w@,
                    proj_norm_w@,
                    proj_1_w@,
                    proj_2_w@,
                ],
                (Heads { n_head, head_dim, seq_len, root: d_sqrt_recip, slope: gelu_slope }),
            ).0.ok ==> #[trigger] call_requires(f, (g, x)),
        forall|g: &mut DagBuilder, x: &[EdgeId], r: Vec<EdgeId>| #[trigger]
            call_ensures(f, (g, x), r) ==> ((*final(g))@, r@) == (*g)@.nanogpt_block(
                x@[0],
                seq![
                    attn_norm_w@,
                    attn_q_w@,
                    attn_k_w@,
                    attn_v_w@,
                    attn_o_w@,
                    proj_norm_w@,
                    proj_1_w@,
                    proj_2_w@,
                ],
                (Heads { n_head, head_dim, seq_len, root: d_sqrt_recip, slope: gelu_slope }),
            ),
{
    move |g: &mut DagBuilder, x: &[EdgeId]| -> (r: Vec<EdgeId>)
        requires
            x@.len() == 1,
            old(g)@.nanogpt_block(
                x@[0],
                seq![
                    attn_norm_w@,
                    attn_q_w@,
                    attn_k_w@,
                    attn_v_w@,
                    attn_o_w@,
                    proj_norm_w@,
                    proj_1_w@,
                    proj_2_w@,
                ],
                (Heads { n_head, head_dim, seq_len, root: d_sqrt_recip, slope: gelu_slope }),
            ).0.ok,
        ensures
            (final(g)@, r@) == old(g)@.nanogpt_block(
                x@[0],
                seq![
                    attn_norm_w@,
                    attn_q_w@,
                    attn_k_w@,
                    attn_v_w@,
                    attn_o_w@,
                    proj_norm_w@,
                    proj_1_w@,
                    proj_2_w@,
                ],
                (Heads { n_head, head_dim, seq_len, root: d_sqrt_recip, slope: gelu_slope }),
            ),
        { 
            add_nanogpt_block(
                g,
                x[0],
                attn_norm_w,
                attn_q_w,
                attn_k_w,
                attn_v_w,
                attn_o_w,
                proj_norm_w,
                proj_1_w,
                proj_2_w,
                attention_mask,
                n_head,
                head_dim,
                seq_len,
                d_sqrt_recip,
                gelu_slope,
            )
         }
}

/// The layer of token embeddings, by the product of one-hot rows with the weights, plus position
/// embeddings.
pub fn nanogpt_embeddings(
    wte_e: EdgeId,
    pos_emb_e: EdgeId,
) -> (f: impl FnOnce(&mut DagBuilder, &[EdgeId]) -> Vec<EdgeId>)
    ensures
        forall|g: &mut DagBuilder, x: &[EdgeId]|
            x@.len() == 1 && (*g)@.embeddings(
                x@[0],
                wte_e,
                pos_emb_e,
            ).0.ok ==> #[trigger] call_requires(f, (g, x)),
        forall|g: &mut DagBuilder, x: &[EdgeId], r: Vec<EdgeId>| #[trigger]
            call_ensures(f, (g, x), r) ==> ((*final(g))@, r@) == (*g)@.embeddings(
                x@[0],
                wte_e,
                pos_emb_e,
            ),
{
    move |g: &mut DagBuilder, x: &[EdgeId]| -> (r: Vec<EdgeId>)
        requires
            x@.len() == 1,
            old(g)@.embeddings(x@[0], wte_e, pos_emb_e).0.ok,
        ensures
            (final(g)@, r@) == old(g)@.embeddings(x@[0], wte_e, pos_emb_e),
        { add_embeddings(g, x[0], wte_e, pos_emb_e) }
}

/// The layer of the logits, by the product with the transposed weights of the embedding.
pub fn nanogpt_lm_head(
    lm_head_w_e: EdgeId,
) -> (f: impl FnOnce(&mut DagBuilder, &[EdgeId]) -> Vec<EdgeId>)
    ensures
        forall|g: &mut DagBuilder, x: &[EdgeId]|
            x@.len() == 1 && (*g)@.lm_head(
                x@[0],
                lm_head_w_e,
            ).0.ok ==> #[trigger] call_requires(f, (g, x)),
        forall|g: &mut DagBuilder, x: &[EdgeId], r: Vec<EdgeId>| #[trigger]
            call_ensures(f, (g, x), r) ==> ((*final(g))@, r@) == (*g)@.lm_head(x@[0], lm_head_w_e),
{
    move |g: &mut DagBuilder, x: &[EdgeId]| -> (r: Vec<EdgeId>)
        requires
            x@.len() == 1,
            old(g)@.lm_head(x@[0], lm_head_w_e).0.ok,
        ensures
            (final(g)@, r@) == old(g)@.lm_head(x@[0], lm_head_w_e),
        { add_lm_head(g, x[0], lm_head_w_e) }
}

/// nanoGPT as a layer: embeddings, `n_layer` blocks, the last normalisation and the logits, whose
/// weights are those of the embedding. The weights of each kind come by block; `d_sqrt_recip` is the
/// reciprocal of the square root of the width of a head and `gelu_slope` the slope of the activation,
/// both scaled and rounded.
pub fn nanogpt(
    wte: Witness,
    pos_emb: Witness,
    attn_norm_w_vec: Vec<Witness>,
    attn_q_w_vec: Vec<Witness>,
    attn_k_w_vec: Vec<Witness>,
    attn_v_w_vec: Vec<Witness>,
    attn_o_w_vec: Vec<Witness>,
    proj_norm_w_vec: Vec<Witness>,
    proj_1_w_vec: Vec<Witness>,
    proj_2_w_vec: Vec<Witness>,
    layer_norm_w: Witness,
    attention_mask: Witness,
    n_layer: usize,
    n_head: usize,
    head_dim: usize,
    seq_len: usize,
    d_sqrt_recip: u32,
    gelu_slope: u32,
) -> (f: impl FnOnce(&mut DagBuilder, &[EdgeId]) -> Vec<EdgeId>)
    ensures
        forall|g: &mut DagBuilder, x: &[EdgeId]|
            x@.len() == 1 && (*g)@.nanogpt(
                x@[0],
                wte@,
                pos_emb@,
                seq![
                    tensor_values(attn_norm_w_vec@),
                    tensor_values(attn_q_w_vec@),
                    tensor_values(attn_k_w_vec@),
                    tensor_values(attn_v_w_vec@),
                    tensor_values(attn_o_w_vec@),
                    tensor_values(proj_norm_w_vec@),
                    tensor_values(proj_1_w_vec@),
                    tensor_values(proj_2_w_vec@),
                ],
                layer_norm_w@,
                attention_mask@,
                n_layer as nat,
                (Heads { n_head, head_dim, seq_len, root: d_sqrt_recip, slope: gelu_slope }),
            ).0.ok ==> #[trigger] call_requires(f, (g, x)),
        forall|g: &mut DagBuilder, x: &[EdgeId], r: Vec<EdgeId>| #[trigger]
            call_ensures(f, (g, x), r) ==> ((*final(g))@, r@) == (*g)@.nanogpt(
                x@[0],
                wte@,
                pos_emb@,
                seq![
                    tensor_values(attn_norm_w_vec@),
                    tensor_values(attn_q_w_vec@),
                    tensor_values(attn_k_w_vec@),
                    tensor_values(attn_v_w_vec@),
                    tensor_values(attn_o_w_vec@),
                    tensor_values(proj_norm_w_vec@),
                    tensor_values(proj_1_w_vec@),
                    tensor_values(proj_2_w_vec@),
                ],
                layer_norm_w@,
                attention_mask@,
                n_layer as nat,
                (Heads { n_head, head_dim, seq_len, root: d_sqrt_recip, slope: gelu_slope }),
            ),
{
    move |g: &mut DagBuilder, x: &[EdgeId]| -> (r: Vec<EdgeId>)
        requires
            x@.len() == 1,
            old(g)@.nanogpt(
                x@[0],
                wte@,
                pos_emb@,
                seq![
                    tensor_values(attn_norm_w_vec@),
                    tensor_values(attn_q_w_vec@),
                    tensor_values(attn_k_w_vec@),
                    tensor_values(attn_v_w_vec@),
                    tensor_values(attn_o_w_vec@),
                    tensor_values(proj_norm_w_vec@),
                    tensor_values(proj_1_w_vec@),
                    tensor_values(proj_2_w_vec@),
                ],
                layer_norm_w@,
                attention_mask@,
                n_layer as nat,
                (Heads { n_head, head_dim, seq_len, root: d_sqrt_recip, slope: gelu_slope }),
            ).0.ok,
        ensures
            (final(g)@, r@) == old(g)@.nanogpt(
                x@[0],
                wte@,
                pos_emb@,
                seq![
                    tensor_values(attn_norm_w_vec@),
                    tensor_values(attn_q_w_vec@),
                    tensor_values(attn_k_w_vec@),
                    tensor_values(attn_v_w_vec@),
                    tensor_values(attn_o_w_vec@),
                    tensor_values(proj_norm_w_vec@),
                    tensor_values(proj_1_w_vec@),
                    tensor_values(proj_2_w_vec@),
                ],
                layer_norm_w@,
                attention_mask@,
                n_layer as nat,
                (Heads { n_head, head_dim, seq_len, root: d_sqrt_recip, slope: gelu_slope }),
            ),
        { 
            add_nanogpt(
                g,
                x[0],
                wte,
                pos_emb,
                attn_norm_w_vec,
                attn_q_w_vec,
                attn_k_w_vec,
                attn_v_w_vec,
                attn_o_w_vec,
                proj_norm_w_vec,
                proj_1_w_vec,
                proj_2_w_vec,
                layer_norm_w,
                attention_mask,
                n_layer,
                n_head,
                head_dim,
                seq_len,
                d_sqrt_recip,
                gelu_slope,
            )
         }
}

} // verus!
