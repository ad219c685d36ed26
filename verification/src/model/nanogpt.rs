//! Random weights of nanoGPT.
use crate::arith::{ceil_log, lemma_ceil_log_unique, lemma_few_dims, num_vars};
use crate::dag::builder::{one_edge, three_dims, two_edges, DagBuilder};
use crate::dag::compile::{compilable, compiled};
use crate::dag::fits::{holds, lemma_nanogpt_fits, nano_weights, ready, sizes_fit};
use crate::dag::graph::{empty_graph, Graph};
use crate::dag::llama::{all_have, layer_weights, tensor_values};
use crate::dag::nanogpt::{
    nanogpt, Heads, NANO_HEAD_DIM, NANO_MLP_HIDDEN, NANO_N_EMBD, NANO_N_HEAD, NANO_N_LAYER,
    NANO_VOCAB_SIZE,
};
use crate::dag::sound::{
    lemma_empty_sound, lemma_grown_edges, lemma_input_kept, lemma_nanogpt_kept,
};
use crate::dag::{Dag, EdgeId};
use crate::model::random::{has_below, small_tensor};
use crate::witness::{DataType, Value, Witness};
use vstd::prelude::*;

verus! {

/// The weights of nanoGPT, those of each kind by block.
#[derive(Debug)]
pub struct NanoWeights {
    /// The embedding, of shape `(tokens, width)`.
    pub wte: Witness,
    /// The position embeddings, of shape `(1, positions, width)`.
    pub pos_emb: Witness,
    pub attn_norm_w: Vec<Witness>,
    pub attn_q_w: Vec<Witness>,
    pub attn_k_w: Vec<Witness>,
    pub attn_v_w: Vec<Witness>,
    pub attn_o_w: Vec<Witness>,
    pub proj_norm_w: Vec<Witness>,
    pub proj_1_w: Vec<Witness>,
    pub proj_2_w: Vec<Witness>,
    pub layer_norm_w: Witness,
    pub attention_mask: Witness,
}

impl NanoWeights {
    /// The weights of the blocks, in the order of their kinds.
    pub open spec fn kinds(&self) -> Seq<Seq<Value>> {
        seq![
            tensor_values(self.attn_norm_w@),
            tensor_values(self.attn_q_w@),
            tensor_values(self.attn_k_w@),
            tensor_values(self.attn_v_w@),
            tensor_values(self.attn_o_w@),
            tensor_values(self.proj_norm_w@),
            tensor_values(self.proj_1_w@),
            tensor_values(self.proj_2_w@),
        ]
    }

    /// Weights below 500 for a number of positions.
    pub open spec fn random(&self, seq_len: usize, sf: usize) -> bool {
        let n = NANO_N_LAYER as nat;
        let square = seq![NANO_N_EMBD, NANO_N_EMBD];
        &&& has_below(self.wte, seq![NANO_VOCAB_SIZE, NANO_N_EMBD], 500, sf)
        &&& has_below(self.pos_emb, seq![1, seq_len, NANO_N_EMBD], 500, sf)
        &&& all_below(self.attn_norm_w@, n, seq![NANO_N_EMBD], sf)
        &&& all_below(self.attn_q_w@, n, square, sf)
        &&& all_below(self.attn_k_w@, n, square, sf)
        &&& all_below(self.attn_v_w@, n, square, sf)
        &&& all_below(self.attn_o_w@, n, square, sf)
        &&& all_below(self.proj_norm_w@, n, seq![NANO_N_EMBD], sf)
        &&& all_below(self.proj_1_w@, n, seq![NANO_N_EMBD, NANO_MLP_HIDDEN], sf)
        &&& all_below(self.proj_2_w@, n, seq![NANO_MLP_HIDDEN, NANO_N_EMBD], sf)
        &&& has_below(self.layer_norm_w, seq![NANO_N_EMBD], 500, sf)
        &&& has_below(self.attention_mask, seq![1, seq_len, seq_len], 500, sf)
    }
}

/// `n` constants of the given shape with weights below 500.
pub open spec fn all_below(ws: Seq<Witness>, n: nat, shape: Seq<usize>, sf: usize) -> bool {
    ws.len() == n && forall|i: int|
        0 <= i < n ==> has_below(#[trigger] ws[i], shape, 500, sf)
}

/// The index bits of the dimensions of the model.
proof fn lemma_nano_dims()
    ensures
        ceil_log(1) == 0,
        ceil_log(NANO_N_EMBD as int) == 6,
        ceil_log(NANO_VOCAB_SIZE as int) == 7,
        ceil_log(NANO_MLP_HIDDEN as int) == 8,
{
    vstd::arithmetic::power2::lemma2_to64();
    lemma_ceil_log_unique(1, 0);
    lemma_ceil_log_unique(64, 6);
    lemma_ceil_log_unique(65, 7);
    lemma_ceil_log_unique(256, 8);
}

/// Random weights for a number of positions.
pub fn generate_nanogpt_weights(seq_len: usize, sf: usize) -> (r: NanoWeights)
    requires
        num_vars(seq![1, seq_len, NANO_N_EMBD]) < usize::BITS,
        num_vars(seq![1, seq_len, seq_len]) < usize::BITS,
    ensures
        r.random(seq_len, sf),
{
    proof {
        lemma_nano_dims();
        lemma_few_dims(NANO_VOCAB_SIZE, NANO_N_EMBD, 1);
        lemma_few_dims(NANO_N_EMBD, NANO_N_EMBD, 1);
        lemma_few_dims(NANO_N_EMBD, NANO_MLP_HIDDEN, 1);
        lemma_few_dims(NANO_MLP_HIDDEN, NANO_N_EMBD, 1);
    }
    let wte = small_tensor(two_edges(NANO_VOCAB_SIZE, NANO_N_EMBD), 500, sf);
    let pos_emb = small_tensor(three_dims(1, seq_len, NANO_N_EMBD), 500, sf);
    let mut attn_norm_w: Vec<Witness> = Vec::new();
    let mut attn_q_w: Vec<Witness> = Vec::new();
    let mut attn_k_w: Vec<Witness> = Vec::new();
    let mut attn_v_w: Vec<Witness> = Vec::new();
    let mut attn_o_w: Vec<Witness> = Vec::new();
    let mut proj_norm_w: Vec<Witness> = Vec::new();
    let mut proj_1_w: Vec<Witness> = Vec::new();
    let mut proj_2_w: Vec<Witness> = Vec::new();
    let mut i: usize = 0;
    while i < NANO_N_LAYER
        invariant
            i <= NANO_N_LAYER,
            num_vars(seq![NANO_N_EMBD]) < usize::BITS,
            num_vars(seq![NANO_N_EMBD, NANO_N_EMBD]) < usize::BITS,
            num_vars(seq![NANO_N_EMBD, NANO_MLP_HIDDEN]) < usize::BITS,
            num_vars(seq![NANO_MLP_HIDDEN, NANO_N_EMBD]) < usize::BITS,
            all_below(attn_norm_w@, i as nat, seq![NANO_N_EMBD], sf),
            all_below(attn_q_w@, i as nat, seq![NANO_N_EMBD, NANO_N_EMBD], sf),
            all_below(attn_k_w@, i as nat, seq![NANO_N_EMBD, NANO_N_EMBD], sf),
            all_below(attn_v_w@, i as nat, seq![NANO_N_EMBD, NANO_N_EMBD], sf),
            all_below(attn_o_w@, i as nat, seq![NANO_N_EMBD, NANO_N_EMBD], sf),
            all_below(proj_norm_w@, i as nat, seq![NANO_N_EMBD], sf),
            all_below(proj_1_w@, i as nat, seq![NANO_N_EMBD, NANO_MLP_HIDDEN], sf),
            all_below(proj_2_w@, i as nat, seq![NANO_MLP_HIDDEN, NANO_N_EMBD], sf),
        decreases NANO_N_LAYER - i,
    {
        attn_norm_w.push(small_tensor(one_edge(NANO_N_EMBD), 500, sf));
        attn_q_w.push(small_tensor(two_edges(NANO_N_EMBD, NANO_N_EMBD), 500, sf));
        attn_k_w.push(small_tensor(two_edges(NANO_N_EMBD, NANO_N_EMBD), 500, sf));
        attn_v_w.push(small_tensor(two_edges(NANO_N_EMBD, NANO_N_EMBD), 500, sf));
        attn_o_w.push(small_tensor(two_edges(NANO_N_EMBD, NANO_N_EMBD), 500, sf));
        proj_norm_w.push(small_tensor(one_edge(NANO_N_EMBD), 500, sf));
        proj_1_w.push(small_tensor(two_edges(NANO_N_EMBD, NANO_MLP_HIDDEN), 500, sf));
        proj_2_w.push(small_tensor(two_edges(NANO_MLP_HIDDEN, NANO_N_EMBD), 500, sf));
        i += 1;
    }
    let layer_norm_w = small_tensor(one_edge(NANO_N_EMBD), 500, sf);
    let attention_mask = small_tensor(three_dims(1, seq_len, seq_len), 500, sf);
    NanoWeights {
        wte,
        pos_emb,
        attn_norm_w,
        attn_q_w,
        attn_k_w,
        attn_v_w,
        attn_o_w,
        proj_norm_w,
        proj_1_w,
        proj_2_w,
        layer_norm_w,
        attention_mask,
    }
}

/// The weights of every block have the shapes of a block.
pub proof fn lemma_random_layers(w: NanoWeights, seq_len: usize, sf: usize)
    requires
        w.random(seq_len, sf),
    ensures
        all_have(w.kinds(), NANO_N_LAYER as nat),
        forall|i: int|
            0 <= i < NANO_N_LAYER ==> nano_weights(
                #[trigger] layer_weights(w.kinds(), i),
                NANO_N_EMBD,
                NANO_MLP_HIDDEN,
                sf,
            ),
{
    let (n, m) = (NANO_N_EMBD, NANO_MLP_HIDDEN);
    assert forall|i: int| 0 <= i < NANO_N_LAYER implies nano_weights(
        #[trigger] layer_weights(w.kinds(), i),
        n,
        m,
        sf,
    ) by {
        let layer = layer_weights(w.kinds(), i);
        assert(layer[0] == w.attn_norm_w@[i]@ && has_below(w.attn_norm_w@[i], seq![n], 500, sf));
        assert(layer[1] == w.attn_q_w@[i]@ && has_below(w.attn_q_w@[i], seq![n, n], 500, sf));
        assert(layer[2] == w.attn_k_w@[i]@ && has_below(w.attn_k_w@[i], seq![n, n], 500, sf));
        assert(layer[3] == w.attn_v_w@[i]@ && has_below(w.attn_v_w@[i], seq![n, n], 500, sf));
        assert(layer[4] == w.attn_o_w@[i]@ && has_below(w.attn_o_w@[i], seq![n, n], 500, sf));
        assert(layer[5] == w.proj_norm_w@[i]@ && has_below(w.proj_norm_w@[i], seq![n], 500, sf));
        assert(layer[6] == w.proj_1_w@[i]@ && has_below(w.proj_1_w@[i], seq![n, m], 500, sf));
        assert(layer[7] == w.proj_2_w@[i]@ && has_below(w.proj_2_w@[i], seq![m, n], 500, sf));
    }
}

/// The sizes of the attention.
pub open spec fn nano_heads(seq_len: usize, d_sqrt_recip: u32, gelu_slope: u32) -> Heads {
    Heads {
        n_head: NANO_N_HEAD,
        head_dim: NANO_HEAD_DIM,
        seq_len,
        root: d_sqrt_recip,
        slope: gelu_slope,
    }
}

/// The graph of the model on one-hot rows, from an empty graph, with the edges of the input and of
/// the logits.
pub open spec fn nano_graph(
    w: NanoWeights,
    seq_len: usize,
    d_sqrt_recip: u32,
    gelu_slope: u32,
    sf_log: usize,
    table_size_log: usize,
) -> (Graph, (usize, usize)) {
    let (g, x) = empty_graph(sf_log, table_size_log).input(
        seq![1, seq_len, NANO_VOCAB_SIZE],
        DataType::Float,
    );
    let (g, r) = g.nanogpt(
        x,
        w.wte@,
        w.pos_emb@,
        w.kinds(),
        w.layer_norm_w@,
        w.attention_mask@,
        NANO_N_LAYER as nat,
        nano_heads(seq_len, d_sqrt_recip, gelu_slope),
    );
    (g, (x, r[0]))
}

/// With random weights the graph of the model can be built and compiled.
proof fn lemma_nano_graph(
    w: NanoWeights,
    seq_len: usize,
    d_sqrt_recip: u32,
    gelu_slope: u32,
    sf_log: usize,
    table_size_log: usize,
)
    requires
        w.random(seq_len, sf_log),
        sizes_fit(seq_len, NANO_N_HEAD, NANO_N_EMBD, NANO_MLP_HIDDEN),
        sf_log <= 22,
    ensures
        ({
            let (g, edges) = nano_graph(
                w,
                seq_len,
                d_sqrt_recip,
                gelu_slope,
                sf_log,
                table_size_log,
            );
            &&& g.ok
            &&& compilable(g)
            &&& holds(g, edges.1, seq![1, seq_len, NANO_VOCAB_SIZE], sf_log)
        }),
{
    let g = empty_graph(sf_log, table_size_log);
    let shape = seq![1, seq_len, NANO_VOCAB_SIZE];
    let (g1, x) = g.input(shape, DataType::Float);
    assert(ready(g1, 289int * NANO_N_LAYER + 72)) by {
        reveal(ready);
    }
    lemma_random_layers(w, seq_len, sf_log);
    let p = nano_heads(seq_len, d_sqrt_recip, gelu_slope);
    lemma_nanogpt_fits(
        g1,
        x,
        w.wte@,
        w.pos_emb@,
        w.kinds(),
        w.layer_norm_w@,
        w.attention_mask@,
        NANO_N_LAYER as nat,
        p,
        NANO_VOCAB_SIZE,
        NANO_N_EMBD,
        NANO_MLP_HIDDEN,
    );
    lemma_empty_sound(g);
    lemma_input_kept(g, g, shape, DataType::Float);
    lemma_grown_edges(g, g1);
    lemma_nanogpt_kept(
        g1,
        x,
        w.wte@,
        w.pos_emb@,
        w.kinds(),
        w.layer_norm_w@,
        w.attention_mask@,
        NANO_N_LAYER as nat,
        p,
    );
}

/// Compiles the graph of the model on one-hot rows, with random weights. The edges are those of the
/// input and of the logits.
pub fn build_nanogpt_circuit(
    seq_len: usize,
    d_sqrt_recip: u32,
    gelu_slope: u32,
    sf_log: usize,
    table_size_log: usize,
) -> (r: (Dag, Vec<Vec<Witness>>, EdgeId, EdgeId))
    requires
        num_vars(seq![1, seq_len, seq_len]) < usize::BITS,
        sizes_fit(seq_len, NANO_N_HEAD, NANO_N_EMBD, NANO_MLP_HIDDEN),
        sf_log <= 22,
    ensures
        exists|w: NanoWeights|
            {
                let (g, edges) = nano_graph(
                    w,
                    seq_len,
                    d_sqrt_recip,
                    gelu_slope,
                    sf_log,
                    table_size_log,
                );
                &&& #[trigger] w.random(seq_len, sf_log)
                &&& compiled(g, r.0, r.1@)
                &&& (r.2, r.3) == edges
            },
        r.3 < r.1@.len() && r.1@[r.3 as int]@[0].shape@ == seq![1, seq_len, NANO_VOCAB_SIZE],
{
    let w = generate_nanogpt_weights(seq_len, sf_log);
    proof {
        lemma_nano_graph(w, seq_len, d_sqrt_recip, gelu_slope, sf_log, table_size_log);
    }
    let ghost model = w;
    let mut g = DagBuilder::new(sf_log, table_size_log);
    let x = g.input(three_dims(1, seq_len, NANO_VOCAB_SIZE), DataType::Float);
    let edges = one_edge(x);
    let out = g.pipe(
        edges.as_slice(),
        nanogpt(
            w.wte,
            w.pos_emb,
            w.attn_norm_w,
            w.attn_q_w,
            w.attn_k_w,
            w.attn_v_w,
            w.attn_o_w,
            w.proj_norm_w,
            w.proj_1_w,
            w.proj_2_w,
            w.layer_norm_w,
            w.attention_mask,
            NANO_N_LAYER,
            NANO_N_HEAD,
            NANO_HEAD_DIM,
            seq_len,
            d_sqrt_recip,
            gelu_slope,
        ),
    );
    let logits = out[0];
    let (dag, init) = g.compile();
    assert(model.random(seq_len, sf_log));
    (dag, init, x, logits)
}

} // verus!
