//! Random weights of LLaMA, and the graph that checks a whole transcript at once.
use crate::arith::num_vars;
use crate::dag::builder::{one_edge, three_dims, two_edges, DagBuilder};
use crate::dag::compile::compiled;
use crate::dag::fits::{
    holds, lemma_argmax_check_fits, lemma_change_shape_fits, lemma_embedding_lookup_fits,
    lemma_extends, lemma_llama_fits, lemma_param_fits, lemma_ready_less, llama_weights, ready,
    sizes_fit, weighs,
};
use crate::dag::graph::{empty_graph, Graph};
use crate::dag::llama::{add_llama, all_have, layer_weights, lemma_llama_ok, tensor_values};
use crate::dag::oneshot::selectable;
use crate::dag::rotary::rotation_fits;
use crate::dag::sound::{
    lemma_argmax_check_kept, lemma_change_shape_kept, lemma_embedding_lookup_kept,
    lemma_empty_sound, lemma_grown_edges, lemma_llama_kept, lemma_param_kept,
    lemma_sound_compilable,
};
use crate::dag::{Dag, EdgeId};
use crate::model::random::{has_norm, has_signed, norm_tensor, seeded, signed_tensor};
use crate::witness::{Value, Witness};
use vstd::prelude::*;

verus! {

/// The weights of LLaMA, those of each kind by block.
#[derive(Debug)]
pub struct LlamaWeights {
    pub attn_norm_w: Vec<Witness>,
    pub attn_q_w: Vec<Witness>,
    pub attn_k_w: Vec<Witness>,
    pub attn_v_w: Vec<Witness>,
    pub attn_o_w: Vec<Witness>,
    pub proj_norm_w: Vec<Witness>,
    pub proj_1_w: Vec<Witness>,
    pub proj_2_w: Vec<Witness>,
    pub proj_3_w: Vec<Witness>,
    pub layer_norm_w: Witness,
    pub logits_w: Witness,
}

impl LlamaWeights {
    /// The weights of the blocks, in the order of their kinds.
    pub open spec fn kinds(&self) -> Seq<Seq<Value>> {
        seq![
            tensor_values(self.attn_norm_w@),
            tensor_values(self.attn_q_w@),
            tensor_values(self.attn_k_w@),
            tensor_values(self.attn_v_w@),
            tensor_values(self.attn_o_w@),
            tensor_values(self.proj_norm_w@),
            tensor_values(self.proj_1_w@),
            tensor_values(self.proj_2_w@),
            tensor_values(self.proj_3_w@),
        ]
    }

    /// Weights for `num_layers` blocks: those of normalisations are close to one, and all others
    /// have mean zero.
    pub open spec fn random(
        &self,
        num_layers: nat,
        hidden_dim: usize,
        mlp_dim: usize,
        vocab_size: usize,
        sf: usize,
    ) -> bool {
        let square = seq![hidden_dim, hidden_dim];
        &&& all_norm(self.attn_norm_w@, num_layers, seq![hidden_dim], sf)
        &&& all_signed(self.attn_q_w@, num_layers, square, 64, sf)
        &&& all_signed(self.attn_k_w@, num_layers, square, 64, sf)
        &&& all_signed(self.attn_v_w@, num_layers, square, 64, sf)
        &&& all_signed(self.attn_o_w@, num_layers, square, 64, sf)
        &&& all_norm(self.proj_norm_w@, num_layers, seq![hidden_dim], sf)
        &&& all_signed(self.proj_1_w@, num_layers, seq![hidden_dim, mlp_dim], 64, sf)
        &&& all_signed(self.proj_2_w@, num_layers, seq![hidden_dim, mlp_dim], 64, sf)
        &&& all_signed(self.proj_3_w@, num_layers, seq![mlp_dim, hidden_dim], 32, sf)
        &&& has_norm(self.layer_norm_w, seq![hidden_dim], sf)
        &&& has_signed(self.logits_w, seq![hidden_dim, vocab_size], 64, sf)
    }
}

/// `n` constants of the given shape with signed weights.
pub open spec fn all_signed(
    ws: Seq<Witness>,
    n: nat,
    shape: Seq<usize>,
    half_range: u32,
    sf: usize,
) -> bool {
    ws.len() == n && forall|i: int|
        0 <= i < n ==> has_signed(#[trigger] ws[i], shape, half_range, sf)
}

/// `n` constants of the given shape with weights close to one.
pub open spec fn all_norm(ws: Seq<Witness>, n: nat, shape: Seq<usize>, sf: usize) -> bool {
    ws.len() == n && forall|i: int| 0 <= i < n ==> has_norm(#[trigger] ws[i], shape, sf)
}

/// Random weights: those of normalisations are close to one, and all others have mean zero.
pub fn generate_llama_weights(
    rng: &mut rand::rngs::StdRng,
    num_layers: usize,
    hidden_dim: usize,
    mlp_dim: usize,
    vocab_size: usize,
    sf: usize,
) -> (r: LlamaWeights)
    requires
        num_vars(seq![hidden_dim]) < usize::BITS,
        num_vars(seq![hidden_dim, hidden_dim]) < usize::BITS,
        num_vars(seq![hidden_dim, mlp_dim]) < usize::BITS,
        num_vars(seq![mlp_dim, hidden_dim]) < usize::BITS,
        num_vars(seq![hidden_dim, vocab_size]) < usize::BITS,
        sf < 64,
    ensures
        r.random(num_layers as nat, hidden_dim, mlp_dim, vocab_size, sf),
{
    let mut attn_norm_w: Vec<Witness> = Vec::new();
    let mut attn_q_w: Vec<Witness> = Vec::new();
    let mut attn_k_w: Vec<Witness> = Vec::new();
    let mut attn_v_w: Vec<Witness> = Vec::new();
    let mut attn_o_w: Vec<Witness> = Vec::new();
    let mut proj_norm_w: Vec<Witness> = Vec::new();
    let mut proj_1_w: Vec<Witness> = Vec::new();
    let mut proj_2_w: Vec<Witness> = Vec::new();
    let mut proj_3_w: Vec<Witness> = Vec::new();
    let mut i: usize = 0;
    while i < num_layers
        invariant
            i <= num_layers,
            num_vars(seq![hidden_dim]) < usize::BITS,
            num_vars(seq![hidden_dim, hidden_dim]) < usize::BITS,
            num_vars(seq![hidden_dim, mlp_dim]) < usize::BITS,
            num_vars(seq![mlp_dim, hidden_dim]) < usize::BITS,
            sf < 64,
            all_norm(attn_norm_w@, i as nat, seq![hidden_dim], sf),
            all_signed(attn_q_w@, i as nat, seq![hidden_dim, hidden_dim], 64, sf),
            all_signed(attn_k_w@, i as nat, seq![hidden_dim, hidden_dim], 64, sf),
            all_signed(attn_v_w@, i as nat, seq![hidden_dim, hidden_dim], 64, sf),
            all_signed(attn_o_w@, i as nat, seq![hidden_dim, hidden_dim], 64, sf),
            all_norm(proj_norm_w@, i as nat, seq![hidden_dim], sf),
            all_signed(proj_1_w@, i as nat, seq![hidden_dim, mlp_dim], 64, sf),
            all_signed(proj_2_w@, i as nat, seq![hidden_dim, mlp_dim], 64, sf),
            all_signed(proj_3_w@, i as nat, seq![mlp_dim, hidden_dim], 32, sf),
        decreases num_layers - i,
    {
        attn_norm_w.push(norm_tensor(rng, one_edge(hidden_dim), sf));
        attn_q_w.push(signed_tensor(rng, two_edges(hidden_dim, hidden_dim), 64, sf));
        attn_k_w.push(signed_tensor(rng, two_edges(hidden_dim, hidden_dim), 64, sf));
        attn_v_w.push(signed_tensor(rng, two_edges(hidden_dim, hidden_dim), 64, sf));
        attn_o_w.push(signed_tensor(rng, two_edges(hidden_dim, hidden_dim), 64, sf));
        proj_norm_w.push(norm_tensor(rng, one_edge(hidden_dim), sf));
        proj_1_w.push(signed_tensor(rng, two_edges(hidden_dim, mlp_dim), 64, sf));
        proj_2_w.push(signed_tensor(rng, two_edges(hidden_dim, mlp_dim), 64, sf));
        proj_3_w.push(signed_tensor(rng, two_edges(mlp_dim, hidden_dim), 32, sf));
        i += 1;
    }
    let layer_norm_w = norm_tensor(rng, one_edge(hidden_dim), sf);
    let logits_w = signed_tensor(rng, two_edges(hidden_dim, vocab_size), 64, sf);
    LlamaWeights {
        attn_norm_w,
        attn_q_w,
        attn_k_w,
        attn_v_w,
        attn_o_w,
        proj_norm_w,
        proj_1_w,
        proj_2_w,
        proj_3_w,
        layer_norm_w,
        logits_w,
    }
}

/// As many zeros as there are positions.
pub open spec fn no_tokens(seq_len: usize) -> Seq<usize> {
    Seq::new(seq_len as nat, |i: int| 0usize)
}

impl Graph {
    /// Token embeddings, the model, and the check that given tokens are the arguments of the maximum
    /// of its logits; the edges are those of the logits and of the two selectors.
    pub open spec fn oneshot_llama(
        self,
        w_e: Value,
        weights: Seq<Seq<Value>>,
        layer_norm: Value,
        logits_w: Value,
        num_heads: usize,
        head_dim: usize,
        seq_len: usize,
        vocab_size: usize,
        token_ids: Seq<usize>,
        cosines: Seq<i64>,
        sines: Seq<i64>,
        root: u32,
    ) -> (Graph, (usize, usize, usize)) {
        let g = self.need(num_heads * head_dim <= usize::MAX);
        let (g, w_e) = g.param(w_e);
        let (g, found) = g.embedding_lookup(w_e, seq_len, vocab_size, token_ids);
        let (g, h) = g.change_shape(
            found.0,
            seq![1, seq_len, (num_heads * head_dim) as usize],
        );
        let (g, logits) = g.llama(
            h,
            weights,
            layer_norm,
            logits_w,
            num_heads,
            head_dim,
            seq_len,
            vocab_size,
            cosines,
            sines,
            root,
        );
        let (g, selector) = g.argmax_check(logits[0], seq_len, vocab_size, no_tokens(seq_len));
        (g, (logits[0], found.1, selector))
    }
}

/// Compiles the graph that checks a whole transcript at once: embeddings, the model, and the check
/// of the next tokens, first with zeros in their place. The edges are those of the logits and of the
/// two selectors, so that the latter can be replaced when the tokens are known.
pub fn assemble_oneshot_circuit(
    w_e_witness: Witness,
    weights: LlamaWeights,
    num_heads: usize,
    head_dim: usize,
    seq_len: usize,
    vocab_size: usize,
    token_ids: &[usize],
    cosines: &[i64],
    sines: &[i64],
    d_sqrt_recip: u32,
    sf_log: usize,
    table_size_log: usize,
) -> (r: (Dag, Vec<Vec<Witness>>, EdgeId, EdgeId, EdgeId))
    requires
        empty_graph(sf_log, table_size_log).oneshot_llama(
            w_e_witness@,
            weights.kinds(),
            weights.layer_norm_w@,
            weights.logits_w@,
            num_heads,
            head_dim,
            seq_len,
            vocab_size,
            token_ids@,
            cosines@,
            sines@,
            d_sqrt_recip,
        ).0.ok,
    ensures
        ({
            let (g, edges) = empty_graph(sf_log, table_size_log).oneshot_llama(
                w_e_witness@,
                weights.kinds(),
                weights.layer_norm_w@,
                weights.logits_w@,
                num_heads,
                head_dim,
                seq_len,
                vocab_size,
                token_ids@,
                cosines@,
                sines@,
                d_sqrt_recip,
            );
            &&& compiled(g, r.0, r.1@)
            &&& (r.2, r.3, r.4) == edges
        }),
{
    broadcast use crate::dag::graph::group_ok;

    let ghost kinds = weights.kinds();
    let ghost norm = weights.layer_norm_w@;
    let ghost logits_value = weights.logits_w@;
    let mut zeros: Vec<usize> = Vec::new();
    let mut i: usize = 0;
    while i < seq_len
        invariant
            i <= seq_len,
            zeros@ == Seq::new(i as nat, |i: int| 0usize),
        decreases seq_len - i,
    {
        zeros.push(0);
        i += 1;
    }
    assert(zeros@ == no_tokens(seq_len));
    let mut g = DagBuilder::new(sf_log, table_size_log);
    let ghost start = g@;
    assert(start == empty_graph(sf_log, table_size_log));
    proof {
        let hidden = (num_heads * head_dim) as usize;
        let h0 = start.need(num_heads * head_dim <= usize::MAX);
        let (h1, e) = h0.param(w_e_witness@);
        let (h2, found) = h1.embedding_lookup(e, seq_len, vocab_size, token_ids@);
        let (h3, x) = h2.change_shape(found.0, seq![1, seq_len, hidden]);
        let (h4, logits) = h3.llama(
            x,
            kinds,
            norm,
            logits_value,
            num_heads,
            head_dim,
            seq_len,
            vocab_size,
            cosines@,
            sines@,
            d_sqrt_recip,
        );
        let (h5, _) = h4.argmax_check(logits[0], seq_len, vocab_size, no_tokens(seq_len));
        assert(h4.ok);
        lemma_llama_ok(
            h3,
            x,
            kinds,
            norm,
            logits_value,
            num_heads,
            head_dim,
            seq_len,
            vocab_size,
            cosines@,
            sines@,
            d_sqrt_recip,
        );
        assert(h3.ok && h2.ok && h1.ok && h0.ok);
        assert(h0 == start);
        lemma_empty_sound(start);
        lemma_param_kept(start, start, w_e_witness@);
        lemma_embedding_lookup_kept(start, h1, e, seq_len, vocab_size, token_ids@);
        lemma_change_shape_kept(start, h2, found.0, seq![1, seq_len, hidden]);
        lemma_grown_edges(start, h3);
        lemma_llama_kept(
            h3,
            x,
            kinds,
            norm,
            logits_value,
            num_heads,
            head_dim,
            seq_len,
            vocab_size,
            cosines@,
            sines@,
            d_sqrt_recip,
        );
        lemma_argmax_check_kept(h3, h4, logits[0], seq_len, vocab_size, no_tokens(seq_len));
        lemma_grown_edges(h3, h5);
        lemma_sound_compilable(h5);
    }
    let w_e = g.param(w_e_witness);
    let (h0, emb_selector_edge) = g.embedding_lookup(w_e, seq_len, vocab_size, token_ids);
    let h_input = g.change_shape(h0, three_dims(1, seq_len, num_heads * head_dim));
    let logits = add_llama(
        &mut g,
        h_input,
        weights.attn_norm_w,
        weights.attn_q_w,
        weights.attn_k_w,
        weights.attn_v_w,
        weights.attn_o_w,
        weights.proj_norm_w,
        weights.proj_1_w,
        weights.proj_2_w,
        weights.proj_3_w,
        weights.layer_norm_w,
        weights.logits_w,
        num_heads,
        head_dim,
        seq_len,
        vocab_size,
        cosines,
        sines,
        d_sqrt_recip,
    )[0];
    let selector_edge = g.argmax_check(logits, seq_len, vocab_size, zeros.as_slice());
    let (dag, init) = g.compile();
    (dag, init, logits, emb_selector_edge, selector_edge)
}

/// The weights of every block have the shapes of a block.
proof fn lemma_random_layers(
    w: LlamaWeights,
    num_layers: nat,
    n: usize,
    m: usize,
    vocab_size: usize,
    sf: usize,
)
    requires
        w.random(num_layers, n, m, vocab_size, sf),
    ensures
        w.kinds()[0].len() == num_layers,
        all_have(w.kinds(), num_layers),
        forall|i: int|
            0 <= i < num_layers ==> llama_weights(
                #[trigger] layer_weights(w.kinds(), i),
                n,
                m,
                sf,
            ),
        weighs(w.layer_norm_w@, seq![n], sf),
        weighs(w.logits_w@, seq![n, vocab_size], sf),
{
    assert forall|i: int| 0 <= i < num_layers implies llama_weights(
        #[trigger] layer_weights(w.kinds(), i),
        n,
        m,
        sf,
    ) by {
        let layer = layer_weights(w.kinds(), i);
        assert(layer[0] == w.attn_norm_w@[i]@ && has_norm(w.attn_norm_w@[i], seq![n], sf));
        assert(layer[1] == w.attn_q_w@[i]@ && has_signed(w.attn_q_w@[i], seq![n, n], 64, sf));
        assert(layer[2] == w.attn_k_w@[i]@ && has_signed(w.attn_k_w@[i], seq![n, n], 64, sf));
        assert(layer[3] == w.attn_v_w@[i]@ && has_signed(w.attn_v_w@[i], seq![n, n], 64, sf));
        assert(layer[4] == w.attn_o_w@[i]@ && has_signed(w.attn_o_w@[i], seq![n, n], 64, sf));
        assert(layer[5] == w.proj_norm_w@[i]@ && has_norm(w.proj_norm_w@[i], seq![n], sf));
        assert(layer[6] == w.proj_1_w@[i]@ && has_signed(w.proj_1_w@[i], seq![n, m], 64, sf));
        assert(layer[7] == w.proj_2_w@[i]@ && has_signed(w.proj_2_w@[i], seq![n, m], 64, sf));
        assert(layer[8] == w.proj_3_w@[i]@ && has_signed(w.proj_3_w@[i], seq![m, n], 32, sf));
    }
}

/// With weights of fitting shapes, the graph that checks a whole transcript can be built from an
/// empty one.
pub proof fn lemma_oneshot_llama_fits(
    sf_log: usize,
    table_size_log: usize,
    w_e: Value,
    weights: Seq<Seq<Value>>,
    layer_norm: Value,
    logits_w: Value,
    num_heads: usize,
    head_dim: usize,
    seq_len: usize,
    vocab_size: usize,
    token_ids: Seq<usize>,
    cosines: Seq<i64>,
    sines: Seq<i64>,
    root: u32,
    n: usize,
    m: usize,
)
    requires
        272 * weights[0].len() + 61 <= usize::MAX,
        weighs(w_e, seq![vocab_size, n], sf_log),
        all_have(weights, weights[0].len()),
        forall|i: int|
            0 <= i < weights[0].len() ==> llama_weights(
                #[trigger] layer_weights(weights, i),
                n,
                m,
                sf_log,
            ),
        weighs(layer_norm, seq![n], sf_log),
        weighs(logits_w, seq![n, vocab_size], sf_log),
        selectable(seq_len as nat, vocab_size as nat, token_ids),
        vocab_size > 0,
        rotation_fits(head_dim as nat, seq_len as nat, cosines),
        rotation_fits(head_dim as nat, seq_len as nat, sines),
        n == num_heads * head_dim,
        head_dim * head_dim <= usize::MAX,
        sizes_fit(seq_len, num_heads, n, m),
        sf_log <= 22,
    ensures
        ({
            let (g, edges) = empty_graph(sf_log, table_size_log).oneshot_llama(
                w_e,
                weights,
                layer_norm,
                logits_w,
                num_heads,
                head_dim,
                seq_len,
                vocab_size,
                token_ids,
                cosines,
                sines,
                root,
            );
            &&& g.ok
            &&& holds(g, edges.0, seq![seq_len, vocab_size], sf_log)
            &&& holds(g, edges.1, seq![seq_len, vocab_size], 0)
            &&& holds(g, edges.2, seq![seq_len, vocab_size], 0)
        }),
{
    broadcast use lemma_ready_less;

    let g = empty_graph(sf_log, table_size_log);
    let k = 272int * weights[0].len();
    assert(ready(g, k + 61)) by {
        reveal(ready);
    }
    assert(g.need(num_heads * head_dim <= usize::MAX) =~= g);
    let (g1, e) = g.param(w_e);
    lemma_param_fits(g, w_e);
    lemma_extends(g, g1, 1);
    let (g2, found) = g1.embedding_lookup(e, seq_len, vocab_size, token_ids);
    lemma_embedding_lookup_fits(g1, e, seq_len, vocab_size, token_ids, n, sf_log);
    lemma_extends(g1, g2, 4);
    let (g3, h) = g2.change_shape(found.0, seq![1, seq_len, n]);
    lemma_change_shape_fits(g2, found.0, seq![1, seq_len, n]);
    lemma_extends(g2, g3, 1);
    let (g4, logits) = g3.llama(
        h,
        weights,
        layer_norm,
        logits_w,
        num_heads,
        head_dim,
        seq_len,
        vocab_size,
        cosines,
        sines,
        root,
    );
    lemma_llama_fits(
        g3,
        h,
        weights,
        layer_norm,
        logits_w,
        num_heads,
        head_dim,
        seq_len,
        vocab_size,
        cosines,
        sines,
        root,
        n,
        m,
    );
    lemma_extends(g3, g4, k + 48);
    let (g5, selector) = g4.argmax_check(logits[0], seq_len, vocab_size, no_tokens(seq_len));
    lemma_argmax_check_fits(g4, logits[0], seq_len, vocab_size, no_tokens(seq_len), sf_log);
    lemma_extends(g4, g5, 7);
}

/// Compiles the graph that checks a whole transcript at once, for a model with random weights. The
/// edges are those of the logits and of the two selectors.
pub fn build_oneshot_circuit(
    seq_len: usize,
    vocab_size: usize,
    num_layers: usize,
    num_heads: usize,
    head_dim: usize,
    mlp_dim: usize,
    token_ids: &[usize],
    seed: u64,
    cosines: &[i64],
    sines: &[i64],
    d_sqrt_recip: u32,
    sf_log: usize,
    table_size_log: usize,
) -> (r: (Dag, Vec<Vec<Witness>>, EdgeId, EdgeId, EdgeId))
    requires
        272 * num_layers + 61 <= usize::MAX,
        num_heads * head_dim <= usize::MAX,
        head_dim * head_dim <= usize::MAX,
        weights_fit((num_heads * head_dim) as usize, mlp_dim, vocab_size),
        sizes_fit(seq_len, num_heads, (num_heads * head_dim) as usize, mlp_dim),
        selectable(seq_len as nat, vocab_size as nat, token_ids@),
        vocab_size > 0,
        rotation_fits(head_dim as nat, seq_len as nat, cosines@),
        rotation_fits(head_dim as nat, seq_len as nat, sines@),
        sf_log <= 22,
    ensures
        exists|w_e: Witness, weights: LlamaWeights|
            {
                let (g, edges) = empty_graph(sf_log, table_size_log).oneshot_llama(
                    w_e@,
                    weights.kinds(),
                    weights.layer_norm_w@,
                    weights.logits_w@,
                    num_heads,
                    head_dim,
                    seq_len,
                    vocab_size,
                    token_ids@,
                    cosines@,
                    sines@,
                    d_sqrt_recip,
                );
                &&& #[trigger] random_model(
                    w_e,
                    weights,
                    num_layers as nat,
                    num_heads,
                    head_dim,
                    mlp_dim,
                    vocab_size,
                    sf_log,
                )
                &&& compiled(g, r.0, r.1@)
                &&& (r.2, r.3, r.4) == edges
            },
        r.2 < r.1@.len() && r.1@[r.2 as int]@[0].shape@ == seq![seq_len, vocab_size],
        r.3 < r.1@.len() && r.1@[r.3 as int]@[0].shape@ == seq![seq_len, vocab_size],
        r.4 < r.1@.len() && r.1@[r.4 as int]@[0].shape@ == seq![seq_len, vocab_size],
{
    let hidden_dim = num_heads * head_dim;
    let mut rng = seeded(seed);
    let w_e = signed_tensor(&mut rng, two_edges(vocab_size, hidden_dim), 2000, sf_log);
    let weights = generate_llama_weights(
        &mut rng,
        num_layers,
        hidden_dim,
        mlp_dim,
        vocab_size,
        sf_log,
    );
    proof {
        assert(random_model(
            w_e,
            weights,
            num_layers as nat,
            num_heads,
            head_dim,
            mlp_dim,
            vocab_size,
            sf_log,
        ));
        lemma_random_layers(
            weights,
            num_layers as nat,
            hidden_dim,
            mlp_dim,
            vocab_size,
            sf_log,
        );
        lemma_oneshot_llama_fits(
            sf_log,
            table_size_log,
            w_e@,
            weights.kinds(),
            weights.layer_norm_w@,
            weights.logits_w@,
            num_heads,
            head_dim,
            seq_len,
            vocab_size,
            token_ids@,
            cosines@,
            sines@,
            d_sqrt_recip,
            hidden_dim,
            mlp_dim,
        );
    }
    assemble_oneshot_circuit(
        w_e,
        weights,
        num_heads,
        head_dim,
        seq_len,
        vocab_size,
        token_ids,
        cosines,
        sines,
        d_sqrt_recip,
        sf_log,
        table_size_log,
    )
}

/// Random weights, and an embedding with larger ones.
pub open spec fn random_model(
    w_e: Witness,
    weights: LlamaWeights,
    num_layers: nat,
    num_heads: usize,
    head_dim: usize,
    mlp_dim: usize,
    vocab_size: usize,
    sf: usize,
) -> bool {
    let n = (num_heads * head_dim) as usize;
    &&& has_signed(w_e, seq![vocab_size, n], 2000, sf)
    &&& weights.random(num_layers, n, mlp_dim, vocab_size, sf)
}

/// The tables of the weights can be held.
pub open spec fn weights_fit(hidden_dim: usize, mlp_dim: usize, vocab_size: usize) -> bool {
    &&& num_vars(seq![hidden_dim]) < usize::BITS
    &&& num_vars(seq![hidden_dim, hidden_dim]) < usize::BITS
    &&& num_vars(seq![hidden_dim, mlp_dim]) < usize::BITS
    &&& num_vars(seq![mlp_dim, hidden_dim]) < usize::BITS
    &&& num_vars(seq![hidden_dim, vocab_size]) < usize::BITS
    &&& num_vars(seq![vocab_size, hidden_dim]) < usize::BITS
}

} // verus!
