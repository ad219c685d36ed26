//! What the blocks of the models compute.
use crate::arith::num_vars;
use crate::dag::attention::{
    is_attention, is_projection, is_rotated, lemma_plain_attention_run, lemma_rotary_attention_run,
};
use crate::dag::entries::{padded, Tensor};
use crate::dag::fits::{
    computed, holds, lemma_extends, lemma_extends_self, lemma_gated_mlp_fits, lemma_gelu_mlp_fits,
    lemma_layer_norm_fits, lemma_llama_blocks_fits, lemma_nanogpt_blocks_fits, lemma_next,
    lemma_params_fits, lemma_plain_attention_fits, lemma_plus_fits, lemma_ready_less,
    lemma_rms_norm_fits, lemma_rotary_attention_fits, lemma_same_shape, llama_weights, nano_weights,
    ready, rotary_fits, sizes_fit,
};
use crate::dag::graph::{content_table, Graph};
use crate::dag::llama::{layer_weights, AttentionEdges, Rotary};
use crate::dag::mlps::{is_activated, is_gated, lemma_gated_mlp_run, lemma_gelu_mlp_run};
use crate::dag::nanogpt::Heads;
use crate::dag::norms::{is_centred, is_normalised, lemma_layer_norm_run, lemma_rms_norm_run};
use crate::dag::run::{
    group_step_part, lemma_holds_run, lemma_param_part, lemma_param_run, lemma_part_more,
    lemma_part_run, lemma_plus_run, part, Run,
};
use crate::dag::sums::lemma_same_combined;
use crate::witness::{Role, Value};
use crate::arith::signed;
use vstd::arithmetic::power2::pow2;
use vstd::prelude::*;

verus! {

/// The output is the sum of two tensors of its shape, entry by entry.
pub open spec fn is_sum(a: Tensor, b: Tensor, out: Tensor) -> bool {
    &&& out.full()
    &&& forall|p: int|
        0 <= p < pow2(num_vars(out.shape)) ==> #[trigger] out.table[p] == a.table[p] + b.table[p]
}

/// A sum of tensors of one shape.
pub proof fn lemma_sum_run(
    g: Graph,
    a: usize,
    b: usize,
    shape: Seq<usize>,
    f: usize,
    d: usize,
    run: Run,
)
    requires
        ready(g, 1),
        holds(g, a, shape, f),
        holds(g, b, shape, d),
        computed(g, a, shape, f) || computed(g, b, shape, d),
        run.computes(g.plus(a, b).0),
    ensures
        is_sum(run.on(a), run.on(b), run.on(g.plus(a, b).1[0])),
        run.on(g.plus(a, b).1[0]).shape == shape,
{
    broadcast use group_step_part, lemma_part_run, lemma_holds_run;

    assert(run.computes(g));
    lemma_same_shape(shape);
    lemma_plus_fits(g, a, b, shape, shape, f, d);
    lemma_plus_run(g, a, b, run);
    let out = run.on(g.plus(a, b).1[0]);
    assert forall|p: int| 0 <= p < pow2(num_vars(out.shape)) implies #[trigger] out.table[p]
        == run.on(a).table[p] + run.on(b).table[p] by {
        lemma_same_combined(run.on(a), run.on(b), out, false, p);
    }
}

/// The tensor is that of a value, as far as that is known.
pub open spec fn is_value(t: Tensor, v: Value) -> bool {
    &&& t.shape == v.shape
    &&& t.sf == v.sf
    &&& v.data is Some ==> t.table == content_table(v.data->0).map_values(|x: int| signed(x))
}

/// The tensors are those of some values, in their order.
pub open spec fn are_values(ts: Seq<Tensor>, values: Seq<Value>) -> bool {
    &&& ts.len() == values.len()
    &&& forall|i: int| 0 <= i < values.len() ==> is_value(#[trigger] ts[i], values[i])
}

/// The tensors on the edges of some constants.
pub open spec fn after(g: Graph, run: Run, k: nat) -> Seq<Tensor> {
    Seq::new(k, |i: int| run.on(g.edge_after(i)))
}

/// Constants hold their values.
proof fn lemma_params_run(g: Graph, values: Seq<Value>, run: Run)
    requires
        ready(g, values.len() as int),
        forall|i: int| 0 <= i < values.len() ==> (#[trigger] values[i]).role == Role::Constant,
        run.computes(g.params(values)),
    ensures
        part(g, g.params(values)),
        are_values(after(g, run, values.len()), values),
    decreases values.len(),
{
    broadcast use lemma_ready_less, lemma_part_run;

    reveal(Graph::params);
    if values.len() > 0 {
        let rest = values.drop_last();
        let h = g.params(rest);
        lemma_params_fits(g, rest);
        lemma_extends(g, h, rest.len() as int);
        lemma_param_part(h, values.last());
        assert(run.computes(h));
        lemma_params_run(g, rest, run);
        lemma_part_more(g, h, h.param(values.last()).0);
        lemma_param_run(h, values.last(), run);
        let ts = after(g, run, values.len());
        let before = after(g, run, rest.len());
        assert forall|i: int| 0 <= i < values.len() implies is_value(
            #[trigger] ts[i],
            values[i],
        ) by {
            if i < rest.len() {
                assert(is_value(before[i], rest[i]));
            } else {
                reveal(ready);
                assert(h.param(values.last()).1 == g.edge_after(i));
            }
        }
    } else {
        reveal(part);
    }
}

/// The check of fewer graphs asks for less.
pub proof fn lemma_normalised_less(
    run: Run,
    some: bool,
    all: bool,
    x: Tensor,
    w: Tensor,
    out: Tensor,
    means: Seq<int>,
    factors: Seq<int>,
    s: usize,
    n: usize,
    sf: usize,
)
    requires
        all ==> some,
        is_normalised(run, some, x, w, out, means, factors, s, n, sf),
    ensures
        is_normalised(run, all, x, w, out, means, factors, s, n, sf),
{
}

/// The check of fewer graphs asks for less.
pub proof fn lemma_centred_less(
    run: Run,
    some: bool,
    all: bool,
    x: Tensor,
    means: Seq<int>,
    centred: Tensor,
    s: usize,
    n: usize,
)
    requires
        all ==> some,
        is_centred(run, some, x, means, centred, s, n),
    ensures
        is_centred(run, all, x, means, centred, s, n),
{
}

/// What a block of LLaMA computes on its way.
pub ghost struct LlamaBlock {
    pub weights: Seq<Tensor>,
    pub squares: Seq<int>,
    pub factors: Seq<int>,
    pub norm: Tensor,
    pub queries: Tensor,
    pub keys: Tensor,
    pub rotated_queries: Tensor,
    pub rotated_keys: Tensor,
    pub values: Tensor,
    pub attention: Tensor,
    pub middle: Tensor,
    pub middle_squares: Seq<int>,
    pub middle_factors: Seq<int>,
    pub middle_norm: Tensor,
    pub projection: Tensor,
    pub out: Tensor,
}

/// A block of LLaMA: attention of the normalised input, added to the input, and the gated
/// projection of that, normalised, added to it. The weights are those of the first normalisation,
/// of the queries, keys, values and outputs of the attention, of the second normalisation and of
/// the gated projection.
pub open spec fn is_llama_block(
    run: Run,
    passes: bool,
    x: Tensor,
    weights: Seq<Value>,
    cos: Tensor,
    sin: Tensor,
    p: Rotary,
    n: usize,
    m: usize,
    sf: usize,
    t: LlamaBlock,
) -> bool {
    let (s, h, c) = (p.seq_len, p.num_heads, p.head_dim);
    let w = t.weights;
    &&& are_values(w, weights)
    &&& is_normalised(run, passes, x, w[0], t.norm, t.squares, t.factors, s, n, sf)
    &&& is_projection(t.norm, w[1], t.queries, s, h, c, n)
    &&& is_projection(t.norm, w[2], t.keys, s, h, c, n)
    &&& is_projection(t.norm, w[3], t.values, s, h, c, n)
    &&& is_rotated(t.queries, cos, sin, t.rotated_queries, s, h, c)
    &&& is_rotated(t.keys, cos, sin, t.rotated_keys, s, h, c)
    &&& is_attention(
        run,
        t.rotated_queries,
        t.rotated_keys,
        t.values,
        w[4],
        p.root,
        t.attention,
        s,
        h,
        c,
        n,
        sf,
    )
    &&& is_sum(t.attention, x, t.middle)
    &&& is_normalised(
        run,
        passes,
        t.middle,
        w[5],
        t.middle_norm,
        t.middle_squares,
        t.middle_factors,
        s,
        n,
        sf,
    )
    &&& is_gated(run, t.middle_norm, w[6], w[7], w[8], t.projection, s, n, m, sf)
    &&& is_sum(t.projection, t.middle, t.out)
}

/// A block of LLaMA with heads whose width is a power of two.
pub proof fn lemma_llama_block_run(
    g: Graph,
    x: usize,
    weights: Seq<Value>,
    p: Rotary,
    n: usize,
    m: usize,
    run: Run,
) -> (t: LlamaBlock)
    requires
        ready(g, 272),
        holds(g, x, seq![1, p.seq_len, n], g.sf_log),
        llama_weights(weights, n, m, g.sf_log),
        rotary_fits(g, p, n),
        padded(p.head_dim) == p.head_dim,
        sizes_fit(p.seq_len, p.num_heads, n, m),
        g.sf_log <= 22,
        run.computes(g.llama_block(x, weights, p).0),
        run.honest,
    ensures
        part(g, g.llama_block(x, weights, p).0),
        is_llama_block(
            run,
            run.passes(g.llama_block(x, weights, p).0),
            run.on(x),
            weights,
            run.on(p.cos),
            run.on(p.sin),
            p,
            n,
            m,
            g.sf_log,
            t,
        ),
        t.out == run.on(g.llama_block(x, weights, p).1[0]),
{
    broadcast use lemma_ready_less, group_step_part, lemma_part_run, lemma_holds_run;

    reveal(Graph::llama_block);
    lemma_extends_self(g);
    let f = g.sf_log;
    let s = p.seq_len;
    let shape = seq![1, s, n];
    let w = AttentionEdges {
        q: g.edge_after(1),
        k: g.edge_after(2),
        v: g.edge_after(3),
        o: g.edge_after(4),
    };
    let g1 = g.params(weights);
    lemma_params_fits(g, weights);
    let e0 = g.edge_after(0);
    let e5 = g.edge_after(5);
    let e6 = g.edge_after(6);
    let e7 = g.edge_after(7);
    let e8 = g.edge_after(8);
    assert(holds(g1, e0, weights[0].shape, f));
    assert(holds(g1, w.q, weights[1].shape, f));
    assert(holds(g1, w.k, weights[2].shape, f));
    assert(holds(g1, w.v, weights[3].shape, f));
    assert(holds(g1, w.o, weights[4].shape, f));
    assert(holds(g1, e5, weights[5].shape, f));
    assert(holds(g1, e6, weights[6].shape, f));
    assert(holds(g1, e7, weights[7].shape, f));
    assert(holds(g1, e8, weights[8].shape, f));
    lemma_next(g, g, g1, 0, 9);
    let (g2, norm) = g1.rms_norm(x, e0);
    lemma_rms_norm_fits(g1, x, e0, s, n, f, f);
    lemma_next(g, g1, g2, 9, 40);
    let (g3, attention) = g2.rotary_attention(norm[0], w, p);
    lemma_rotary_attention_fits(g2, norm[0], w, p, n, f, f);
    lemma_next(g, g2, g3, 49, 120);
    let (g4, middle) = g3.plus(attention[0], x);
    lemma_same_shape(shape);
    lemma_plus_fits(g3, attention[0], x, shape, shape, f, f);
    lemma_next(g, g3, g4, 169, 1);
    let (g5, second) = g4.rms_norm(middle[0], e5);
    lemma_rms_norm_fits(g4, middle[0], e5, s, n, f, f);
    lemma_next(g, g4, g5, 170, 40);
    let (g6, projection) = g5.gated_mlp(second[0], e6, e7, e8);
    lemma_gated_mlp_fits(g5, second[0], e6, e7, e8, s, n, m, f, f);
    lemma_next(g, g5, g6, 210, 61);
    let (g7, out) = g6.plus(projection[0], middle[0]);
    assert(run.computes(g6));
    lemma_gated_mlp_run(g5, second[0], e6, e7, e8, s, n, m, f, f, run);
    assert(run.computes(g5));
    let r5 = lemma_rms_norm_run(g4, middle[0], e5, s, n, f, f, run);
    assert(run.computes(g4) && run.computes(g3));
    let r3 = lemma_rotary_attention_run(g2, norm[0], w, p, n, f, f, run);
    assert(run.computes(g2));
    let r2 = lemma_rms_norm_run(g1, x, e0, s, n, f, f, run);
    assert(run.computes(g1));
    lemma_params_run(g, weights, run);
    assert(run.computes(g));
    lemma_part_more(g, g1, g2);
    lemma_part_more(g, g2, g3);
    lemma_part_more(g, g3, g4);
    lemma_part_more(g, g4, g5);
    lemma_part_more(g, g5, g6);
    lemma_part_more(g, g6, g7);
    lemma_sum_run(g3, attention[0], x, shape, f, f, run);
    lemma_sum_run(g6, projection[0], middle[0], shape, f, f, run);
    let all = run.passes(g7);
    let ts = after(g, run, 9);
    let (t2, t5) = (run.on(norm[0]), run.on(second[0]));
    lemma_normalised_less(run, run.passes(g2), all, run.on(x), ts[0], t2, r2.0, r2.1, s, n, f);
    lemma_normalised_less(
        run,
        run.passes(g5),
        all,
        run.on(middle[0]),
        ts[5],
        t5,
        r5.0,
        r5.1,
        s,
        n,
        f,
    );
    LlamaBlock {
        weights: ts,
        squares: r2.0,
        factors: r2.1,
        norm: t2,
        queries: r3.0,
        keys: r3.1,
        rotated_queries: r3.2,
        rotated_keys: r3.3,
        values: r3.4,
        attention: run.on(attention[0]),
        middle: run.on(middle[0]),
        middle_squares: r5.0,
        middle_factors: r5.1,
        middle_norm: t5,
        projection: run.on(projection[0]),
        out: run.on(out[0]),
    }
}

/// The blocks one after the other, each on what the one before gives.
pub open spec fn are_llama_blocks(
    run: Run,
    passes: bool,
    x: Tensor,
    weights: Seq<Seq<Value>>,
    cos: Tensor,
    sin: Tensor,
    p: Rotary,
    n: usize,
    m: usize,
    sf: usize,
    k: nat,
    ts: Seq<LlamaBlock>,
) -> bool {
    &&& ts.len() == k
    &&& forall|i: int|
        0 <= i < k ==> is_llama_block(
            run,
            passes,
            if i == 0 {
                x
            } else {
                ts[i - 1].out
            },
            layer_weights(weights, i),
            cos,
            sin,
            p,
            n,
            m,
            sf,
            #[trigger] ts[i],
        )
}

/// The check of fewer graphs asks for less.
proof fn lemma_llama_block_less(
    run: Run,
    some: bool,
    all: bool,
    x: Tensor,
    weights: Seq<Value>,
    cos: Tensor,
    sin: Tensor,
    p: Rotary,
    n: usize,
    m: usize,
    sf: usize,
    t: LlamaBlock,
)
    requires
        all ==> some,
        is_llama_block(run, some, x, weights, cos, sin, p, n, m, sf, t),
    ensures
        is_llama_block(run, all, x, weights, cos, sin, p, n, m, sf, t),
{
    let w = t.weights;
    lemma_normalised_less(run, some, all, x, w[0], t.norm, t.squares, t.factors, p.seq_len, n, sf);
    lemma_normalised_less(
        run,
        some,
        all,
        t.middle,
        w[5],
        t.middle_norm,
        t.middle_squares,
        t.middle_factors,
        p.seq_len,
        n,
        sf,
    );
}

/// The blocks of LLaMA.
pub proof fn lemma_llama_blocks_run(
    g: Graph,
    x: usize,
    weights: Seq<Seq<Value>>,
    p: Rotary,
    n: usize,
    m: usize,
    k: nat,
    run: Run,
) -> (ts: Seq<LlamaBlock>)
    requires
        ready(g, 272int * k),
        holds(g, x, seq![1, p.seq_len, n], g.sf_log),
        forall|i: int|
            0 <= i < k ==> llama_weights(#[trigger] layer_weights(weights, i), n, m, g.sf_log),
        rotary_fits(g, p, n),
        padded(p.head_dim) == p.head_dim,
        sizes_fit(p.seq_len, p.num_heads, n, m),
        g.sf_log <= 22,
        run.computes(g.llama_blocks(x, weights, p, k).0),
        run.honest,
    ensures
        part(g, g.llama_blocks(x, weights, p, k).0),
        are_llama_blocks(
            run,
            run.passes(g.llama_blocks(x, weights, p, k).0),
            run.on(x),
            weights,
            run.on(p.cos),
            run.on(p.sin),
            p,
            n,
            m,
            g.sf_log,
            k,
            ts,
        ),
        run.on(g.llama_blocks(x, weights, p, k).1) == if k == 0 {
            run.on(x)
        } else {
            ts.last().out
        },
    decreases k,
{
    broadcast use lemma_ready_less, lemma_part_run;

    if k > 0 {
        let j = (k - 1) as nat;
        lemma_llama_blocks_fits(g, x, weights, p, n, m, j);
        let (h, y) = g.llama_blocks(x, weights, p, j);
        let layer = layer_weights(weights, k - 1);
        lemma_extends(g, h, 272int * j);
        let f = h.llama_block(y, layer, p).0;
        let t = lemma_llama_block_run(h, y, layer, p, n, m, run);
        assert(run.computes(h));
        let before = lemma_llama_blocks_run(g, x, weights, p, n, m, j, run);
        lemma_part_more(g, h, f);
        let ts = before.push(t);
        let (cos, sin, sf) = (run.on(p.cos), run.on(p.sin), g.sf_log);
        assert forall|i: int| 0 <= i < k implies is_llama_block(
            run,
            run.passes(f),
            if i == 0 {
                run.on(x)
            } else {
                ts[i - 1].out
            },
            layer_weights(weights, i),
            cos,
            sin,
            p,
            n,
            m,
            sf,
            #[trigger] ts[i],
        ) by {
            if i < j {
                let input = if i == 0 {
                    run.on(x)
                } else {
                    before[i - 1].out
                };
                let w = layer_weights(weights, i);
                assert(is_llama_block(
                    run,
                    run.passes(h),
                    input,
                    w,
                    cos,
                    sin,
                    p,
                    n,
                    m,
                    sf,
                    before[i],
                ));
                lemma_llama_block_less(
                    run,
                    run.passes(h),
                    run.passes(f),
                    input,
                    w,
                    cos,
                    sin,
                    p,
                    n,
                    m,
                    sf,
                    before[i],
                );
            }
        }
        ts
    } else {
        reveal(part);
        seq![]
    }
}

/// What a block of nanoGPT computes on its way.
pub ghost struct NanogptBlock {
    pub weights: Seq<Tensor>,
    pub means: Seq<int>,
    pub centred: Tensor,
    pub squares: Seq<int>,
    pub factors: Seq<int>,
    pub norm: Tensor,
    pub queries: Tensor,
    pub keys: Tensor,
    pub values: Tensor,
    pub attention: Tensor,
    pub middle: Tensor,
    pub middle_means: Seq<int>,
    pub middle_centred: Tensor,
    pub middle_squares: Seq<int>,
    pub middle_factors: Seq<int>,
    pub middle_norm: Tensor,
    pub projection: Tensor,
    pub out: Tensor,
}

/// A block of nanoGPT: attention of the normalised input, added to the input, and the projection of
/// that, normalised, added to it. The weights are those of the first normalisation, of the queries,
/// keys, values and outputs of the attention, of the second normalisation and of the projection.
pub open spec fn is_nanogpt_block(
    run: Run,
    passes: bool,
    x: Tensor,
    weights: Seq<Value>,
    p: Heads,
    n: usize,
    m: usize,
    sf: usize,
    t: NanogptBlock,
) -> bool {
    let (s, h, c) = (p.seq_len, p.n_head, p.head_dim);
    let w = t.weights;
    &&& are_values(w, weights)
    &&& is_centred(run, passes, x, t.means, t.centred, s, n)
    &&& is_normalised(run, passes, t.centred, w[0], t.norm, t.squares, t.factors, s, n, sf)
    &&& is_projection(t.norm, w[1], t.queries, s, h, c, n)
    &&& is_projection(t.norm, w[2], t.keys, s, h, c, n)
    &&& is_projection(t.norm, w[3], t.values, s, h, c, n)
    &&& is_attention(
        run,
        t.queries,
        t.keys,
        t.values,
        w[4],
        p.root,
        t.attention,
        s,
        h,
        c,
        n,
        sf,
    )
    &&& is_sum(t.attention, x, t.middle)
    &&& is_centred(run, passes, t.middle, t.middle_means, t.middle_centred, s, n)
    &&& is_normalised(
        run,
        passes,
        t.middle_centred,
        w[5],
        t.middle_norm,
        t.middle_squares,
        t.middle_factors,
        s,
        n,
        sf,
    )
    &&& is_activated(run, t.middle_norm, w[6], w[7], p.slope, t.projection, s, n, m, sf)
    &&& is_sum(t.projection, t.middle, t.out)
}

/// A block of nanoGPT.
pub proof fn lemma_nanogpt_block_run(
    g: Graph,
    x: usize,
    weights: Seq<Value>,
    p: Heads,
    n: usize,
    m: usize,
    run: Run,
) -> (t: NanogptBlock)
    requires
        ready(g, 289),
        holds(g, x, seq![1, p.seq_len, n], g.sf_log),
        nano_weights(weights, n, m, g.sf_log),
        n == p.n_head * p.head_dim,
        sizes_fit(p.seq_len, p.n_head, n, m),
        g.sf_log <= 22,
        run.computes(g.nanogpt_block(x, weights, p).0),
        run.honest,
    ensures
        part(g, g.nanogpt_block(x, weights, p).0),
        is_nanogpt_block(
            run,
            run.passes(g.nanogpt_block(x, weights, p).0),
            run.on(x),
            weights,
            p,
            n,
            m,
            g.sf_log,
            t,
        ),
        t.out == run.on(g.nanogpt_block(x, weights, p).1[0]),
{
    broadcast use lemma_ready_less, group_step_part, lemma_part_run, lemma_holds_run;

    reveal(Graph::nanogpt_block);
    lemma_extends_self(g);
    let f = g.sf_log;
    let s = p.seq_len;
    let shape = seq![1, s, n];
    let w = AttentionEdges {
        q: g.edge_after(1),
        k: g.edge_after(2),
        v: g.edge_after(3),
        o: g.edge_after(4),
    };
    let g1 = g.params(weights);
    lemma_params_fits(g, weights);
    let e0 = g.edge_after(0);
    let e5 = g.edge_after(5);
    let e6 = g.edge_after(6);
    let e7 = g.edge_after(7);
    assert(holds(g1, e0, weights[0].shape, f));
    assert(holds(g1, w.q, weights[1].shape, f));
    assert(holds(g1, w.k, weights[2].shape, f));
    assert(holds(g1, w.v, weights[3].shape, f));
    assert(holds(g1, w.o, weights[4].shape, f));
    assert(holds(g1, e5, weights[5].shape, f));
    assert(holds(g1, e6, weights[6].shape, f));
    assert(holds(g1, e7, weights[7].shape, f));
    lemma_next(g, g, g1, 0, 8);
    let (g2, norm) = g1.layer_norm(x, e0);
    lemma_layer_norm_fits(g1, x, e0, s, n, f, f);
    lemma_next(g, g1, g2, 8, 61);
    let (g3, attention) = g2.plain_attention(norm[0], w, p);
    lemma_plain_attention_fits(g2, norm[0], w, p, n, f, f);
    lemma_next(g, g2, g3, 69, 98);
    let (g4, middle) = g3.plus(attention[0], x);
    lemma_same_shape(shape);
    lemma_plus_fits(g3, attention[0], x, shape, shape, f, f);
    lemma_next(g, g3, g4, 167, 1);
    let (g5, second) = g4.layer_norm(middle[0], e5);
    lemma_layer_norm_fits(g4, middle[0], e5, s, n, f, f);
    lemma_next(g, g4, g5, 168, 61);
    let (g6, projection) = g5.gelu_mlp(second[0], e6, e7, p.slope);
    lemma_gelu_mlp_fits(g5, second[0], e6, e7, p.slope, s, n, m, f, f);
    lemma_next(g, g5, g6, 229, 59);
    let (g7, out) = g6.plus(projection[0], middle[0]);
    assert(run.computes(g6));
    lemma_gelu_mlp_run(g5, second[0], e6, e7, p.slope, s, n, m, f, f, run);
    assert(run.computes(g5));
    let r5 = lemma_layer_norm_run(g4, middle[0], e5, s, n, f, f, run);
    assert(run.computes(g4) && run.computes(g3));
    let r3 = lemma_plain_attention_run(g2, norm[0], w, p, n, f, f, run);
    assert(run.computes(g2));
    let r2 = lemma_layer_norm_run(g1, x, e0, s, n, f, f, run);
    assert(run.computes(g1));
    lemma_params_run(g, weights, run);
    assert(run.computes(g));
    lemma_part_more(g, g1, g2);
    lemma_part_more(g, g2, g3);
    lemma_part_more(g, g3, g4);
    lemma_part_more(g, g4, g5);
    lemma_part_more(g, g5, g6);
    lemma_part_more(g, g6, g7);
    lemma_sum_run(g3, attention[0], x, shape, f, f, run);
    lemma_sum_run(g6, projection[0], middle[0], shape, f, f, run);
    let all = run.passes(g7);
    let ts = after(g, run, 8);
    let (t2, t5) = (run.on(norm[0]), run.on(second[0]));
    let y = run.on(middle[0]);
    lemma_centred_less(run, run.passes(g2), all, run.on(x), r2.0, r2.1, s, n);
    lemma_normalised_less(run, run.passes(g2), all, r2.1, ts[0], t2, r2.2, r2.3, s, n, f);
    lemma_centred_less(run, run.passes(g5), all, y, r5.0, r5.1, s, n);
    lemma_normalised_less(run, run.passes(g5), all, r5.1, ts[5], t5, r5.2, r5.3, s, n, f);
    NanogptBlock {
        weights: ts,
        means: r2.0,
        centred: r2.1,
        squares: r2.2,
        factors: r2.3,
        norm: t2,
        queries: r3.0,
        keys: r3.1,
        values: r3.2,
        attention: run.on(attention[0]),
        middle: y,
        middle_means: r5.0,
        middle_centred: r5.1,
        middle_squares: r5.2,
        middle_factors: r5.3,
        middle_norm: t5,
        projection: run.on(projection[0]),
        out: run.on(out[0]),
    }
}

/// The blocks one after the other, each on what the one before gives.
pub open spec fn are_nanogpt_blocks(
    run: Run,
    passes: bool,
    x: Tensor,
    weights: Seq<Seq<Value>>,
    p: Heads,
    n: usize,
    m: usize,
    sf: usize,
    k: nat,
    ts: Seq<NanogptBlock>,
) -> bool {
    &&& ts.len() == k
    &&& forall|i: int|
        0 <= i < k ==> is_nanogpt_block(
            run,
            passes,
            if i == 0 {
                x
            } else {
                ts[i - 1].out
            },
            layer_weights(weights, i),
            p,
            n,
            m,
            sf,
            #[trigger] ts[i],
        )
}

/// The check of fewer graphs asks for less.
proof fn lemma_nanogpt_block_less(
    run: Run,
    some: bool,
    all: bool,
    x: Tensor,
    weights: Seq<Value>,
    p: Heads,
    n: usize,
    m: usize,
    sf: usize,
    t: NanogptBlock,
)
    requires
        all ==> some,
        is_nanogpt_block(run, some, x, weights, p, n, m, sf, t),
    ensures
        is_nanogpt_block(run, all, x, weights, p, n, m, sf, t),
{
    let (w, s) = (t.weights, p.seq_len);
    lemma_centred_less(run, some, all, x, t.means, t.centred, s, n);
    lemma_normalised_less(run, some, all, t.centred, w[0], t.norm, t.squares, t.factors, s, n, sf);
    lemma_centred_less(run, some, all, t.middle, t.middle_means, t.middle_centred, s, n);
    lemma_normalised_less(
        run,
        some,
        all,
        t.middle_centred,
        w[5],
        t.middle_norm,
        t.middle_squares,
        t.middle_factors,
        s,
        n,
        sf,
    );
}

/// The blocks of nanoGPT.
pub proof fn lemma_nanogpt_blocks_run(
    g: Graph,
    x: usize,
    weights: Seq<Seq<Value>>,
    p: Heads,
    n: usize,
    m: usize,
    k: nat,
    run: Run,
) -> (ts: Seq<NanogptBlock>)
    requires
        ready(g, 289int * k),
        holds(g, x, seq![1, p.seq_len, n], g.sf_log),
        forall|i: int|
            0 <= i < k ==> nano_weights(#[trigger] layer_weights(weights, i), n, m, g.sf_log),
        n == p.n_head * p.head_dim,
        sizes_fit(p.seq_len, p.n_head, n, m),
        g.sf_log <= 22,
        run.computes(g.nanogpt_blocks(x, weights, p, k).0),
        run.honest,
    ensures
        part(g, g.nanogpt_blocks(x, weights, p, k).0),
        are_nanogpt_blocks(
            run,
            run.passes(g.nanogpt_blocks(x, weights, p, k).0),
            run.on(x),
            weights,
            p,
            n,
            m,
            g.sf_log,
            k,
            ts,
        ),
        run.on(g.nanogpt_blocks(x, weights, p, k).1) == if k == 0 {
            run.on(x)
        } else {
            ts.last().out
        },
    decreases k,
{
    broadcast use lemma_ready_less, lemma_part_run;

    if k > 0 {
        let j = (k - 1) as nat;
        lemma_nanogpt_blocks_fits(g, x, weights, p, n, m, j);
        let (h, y) = g.nanogpt_blocks(x, weights, p, j);
        let layer = layer_weights(weights, k - 1);
        lemma_extends(g, h, 289int * j);
        let f = h.nanogpt_block(y, layer, p).0;
        let t = lemma_nanogpt_block_run(h, y, layer, p, n, m, run);
        assert(run.computes(h));
        let before = lemma_nanogpt_blocks_run(g, x, weights, p, n, m, j, run);
        lemma_part_more(g, h, f);
        let ts = before.push(t);
        let sf = g.sf_log;
        assert forall|i: int| 0 <= i < k implies is_nanogpt_block(
            run,
            run.passes(f),
            if i == 0 {
                run.on(x)
            } else {
                ts[i - 1].out
            },
            layer_weights(weights, i),
            p,
            n,
            m,
            sf,
            #[trigger] ts[i],
        ) by {
            if i < j {
                let input = if i == 0 {
                    run.on(x)
                } else {
                    before[i - 1].out
                };
                let w = layer_weights(weights, i);
                let (some, all) = (run.passes(h), run.passes(f));
                assert(is_nanogpt_block(run, some, input, w, p, n, m, sf, before[i]));
                lemma_nanogpt_block_less(run, some, all, input, w, p, n, m, sf, before[i]);
            }
        }
        ts
    } else {
        reveal(part);
        seq![]
    }
}

/// The check of fewer graphs asks for less.
pub proof fn lemma_llama_blocks_less(
    run: Run,
    some: bool,
    all: bool,
    x: Tensor,
    weights: Seq<Seq<Value>>,
    cos: Tensor,
    sin: Tensor,
    p: Rotary,
    n: usize,
    m: usize,
    sf: usize,
    k: nat,
    ts: Seq<LlamaBlock>,
)
    requires
        all ==> some,
        are_llama_blocks(run, some, x, weights, cos, sin, p, n, m, sf, k, ts),
    ensures
        are_llama_blocks(run, all, x, weights, cos, sin, p, n, m, sf, k, ts),
{
    assert forall|i: int| 0 <= i < k implies is_llama_block(
        run,
        all,
        if i == 0 {
            x
        } else {
            ts[i - 1].out
        },
        layer_weights(weights, i),
        cos,
        sin,
        p,
        n,
        m,
        sf,
        #[trigger] ts[i],
    ) by {
        let input = if i == 0 {
            x
        } else {
            ts[i - 1].out
        };
        let w = layer_weights(weights, i);
        lemma_llama_block_less(run, some, all, input, w, cos, sin, p, n, m, sf, ts[i]);
    }
}

/// The check of fewer graphs asks for less.
pub proof fn lemma_nanogpt_blocks_less(
    run: Run,
    some: bool,
    all: bool,
    x: Tensor,
    weights: Seq<Seq<Value>>,
    p: Heads,
    n: usize,
    m: usize,
    sf: usize,
    k: nat,
    ts: Seq<NanogptBlock>,
)
    requires
        all ==> some,
        are_nanogpt_blocks(run, some, x, weights, p, n, m, sf, k, ts),
    ensures
        are_nanogpt_blocks(run, all, x, weights, p, n, m, sf, k, ts),
{
    assert forall|i: int| 0 <= i < k implies is_nanogpt_block(
        run,
        all,
        if i == 0 {
            x
        } else {
            ts[i - 1].out
        },
        layer_weights(weights, i),
        p,
        n,
        m,
        sf,
        #[trigger] ts[i],
    ) by {
        let input = if i == 0 {
            x
        } else {
            ts[i - 1].out
        };
        let w = layer_weights(weights, i);
        lemma_nanogpt_block_less(run, some, all, input, w, p, n, m, sf, ts[i]);
    }
}

} // verus!
