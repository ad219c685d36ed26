use zktransformer::arith::f_to_int;
use zktransformer::basicblock::BasicBlockType;
use zktransformer::dag::builder::DagBuilder;
use zktransformer::dag::equation::{letters, output_shape};
use zktransformer::dag::llama::{llama_2_7b, llama_attention, llama_mlp, llama_rms_norm};
use zktransformer::dag::nanogpt::{
    nanogpt, nanogpt_attention, nanogpt_embeddings, nanogpt_layer_norm, nanogpt_lm_head,
    nanogpt_mlp, NANO_BLOCK_SIZE, NANO_HEAD_DIM, NANO_MLP_HIDDEN, NANO_N_EMBD, NANO_N_HEAD,
    NANO_N_LAYER, NANO_VOCAB_SIZE,
};
use zktransformer::dag::rotary::{
    causal_mask_data, pair_swap_perm_matrix, rope_cos_mat, rope_cos_vec, rope_sin_mat,
    rope_sin_vec,
};
use zktransformer::dag::{Dag, EdgeId};
use zktransformer::field::{CryptoField, Fr};
use zktransformer::model::nanogpt::generate_nanogpt_weights;
use zktransformer::shape::{broadcast_shape, is_inside, matched_axes, padded_constant};
use zktransformer::witness::{DataType, Poly, Role, Witness};

const SF: usize = 15;

fn ints(v: &[Fr]) -> Vec<i128> {
    v.iter().map(|x| f_to_int(*x)).collect()
}

fn table(w: &Witness) -> Vec<i128> {
    match w.data.as_ref().unwrap() {
        Poly::Dense(p) => ints(&p.evaluations),
        Poly::Sparse(_) => panic!("not dense"),
    }
}

fn zeros(shape: &[usize]) -> Witness {
    let size: usize = shape.iter().map(|d| d.next_power_of_two()).product();
    let data = vec![Fr::zero(); size];
    Witness::new(shape.to_vec(), data, DataType::Float, SF, Role::Constant)
}

fn constant(shape: &[usize], values: &[i128], sf: usize) -> Witness {
    let data = values.iter().map(|v| Fr::from_i128(*v)).collect();
    Witness::new(shape.to_vec(), data, DataType::Float, sf, Role::Constant)
}

fn shape(g: &DagBuilder, e: EdgeId) -> Vec<usize> {
    g.init_values[e].as_ref().unwrap().shape.clone()
}

/// The kind of every node, by the name of its variant.
fn kinds(g: &DagBuilder) -> Vec<String> {
    let name = |k: &BasicBlockType| format!("{:?}", k).split('(').next().unwrap().to_string();
    g.nodes.iter().map(|n| name(&n.kind)).collect()
}

/// Every node comes after those whose outputs it reads, and no node is missing.
fn check_order(dag: &Dag) {
    let mut seen = vec![false; dag.nodes.len()];
    for n in &dag.topo {
        for e in &dag.nodes[*n].inputs {
            if let Some(p) = dag.producers[*e] {
                assert!(seen[p]);
            }
        }
        assert!(!seen[*n]);
        seen[*n] = true;
    }
    assert!(seen.iter().all(|s| *s));
}

#[test]
fn equations_give_shapes() {
    let shapes = vec![vec![2, 3], vec![3, 5]];
    assert_eq!(output_shape("ij,jk->ik", &shapes), Some(vec![2, 5]));
    assert_eq!(output_shape(" ij , jk ->ki", &shapes), Some(vec![5, 2]));
    assert_eq!(output_shape("ij,jk->", &shapes), Some(vec![]));
    // A no-break space is white space, and a space of no width is not.
    assert_eq!(output_shape("\u{a0}ij\t,\u{3000}jk\n->ik", &shapes), Some(vec![2, 5]));
    assert_eq!(output_shape("\u{200b}ij,jk->ik", &shapes), None);
    // The last dimension of a symbol counts, and inputs that are not named are ignored.
    assert_eq!(output_shape("ij,ik->jki", &shapes), Some(vec![3, 5, 3]));
    assert_eq!(output_shape("ij->i", &shapes), Some(vec![2]));
    // White space in the output, too few inputs, too few dimensions, an unknown symbol, no arrow.
    assert_eq!(output_shape("ij,jk-> ik", &shapes), None);
    assert_eq!(output_shape("ij,jk,k->i", &shapes), None);
    assert_eq!(output_shape("ijk,k->i", &shapes), None);
    assert_eq!(output_shape("ij,jk->il", &shapes), None);
    assert_eq!(output_shape("ij,jk", &shapes), None);
    assert_eq!(letters(3), "abc");
    assert_eq!(letters(0), "");
}

#[test]
fn shapes_are_broadcast() {
    assert_eq!(broadcast_shape(&[2, 3], &[3]), Some(vec![2, 3]));
    assert_eq!(broadcast_shape(&[2, 1], &[4, 1, 5]), Some(vec![4, 2, 5]));
    assert_eq!(broadcast_shape(&[2, 3], &[4]), None);
    assert_eq!(matched_axes(&[1, 3], &[2, 3]), Some(vec![1]));
    assert_eq!(ints(&padded_constant(&[3], Fr::from_u64(7))), vec![7, 7, 7, 0]);
    assert!(is_inside(&[3, 2], 6));
    assert!(!is_inside(&[3, 2], 7));
}

#[test]
fn inputs_and_constants_are_edges() {
    let mut g = DagBuilder::new(SF, 16);
    let x = g.input(vec![2, 2], DataType::Float);
    let i = g.input(vec![2, 2], DataType::Int);
    let c = g.param(constant(&[2, 2], &[1, 2, 3, 4], SF));
    assert_eq!((x, i, c), (0, 1, 2));
    assert_eq!(g.init_values[x].as_ref().unwrap().sf, SF);
    assert_eq!(g.init_values[i].as_ref().unwrap().sf, 0);
    assert_eq!(g.init_values[c].as_ref().unwrap().role, Role::Constant);
    assert!(g.nodes.is_empty());
}

#[test]
fn sums_of_constants_are_constants() {
    let mut g = DagBuilder::new(SF, 16);
    let a = g.param(constant(&[2], &[1, 2], SF));
    let b = g.param(constant(&[2], &[10, 20], SF));
    let s = g.add(a, b)[0];
    let d = g.sub(a, b)[0];
    let w = g.init_values[s].as_ref().unwrap();
    assert_eq!(table(w), vec![11, 22]);
    assert_eq!(w.role, Role::Constant);
    assert_eq!(table(g.init_values[d].as_ref().unwrap()), vec![-9, -18]);
    let x = g.input(vec![2], DataType::Float);
    let y = g.add(x, a)[0];
    assert!(g.init_values[y].as_ref().unwrap().data.is_none());
    assert_eq!(kinds(&g), vec!["Add", "Sub", "Add"]);
}

#[test]
fn sums_of_products_are_scaled_back() {
    let mut g = DagBuilder::new(SF, 16);
    let x = g.input(vec![1, 2, 3], DataType::Float);
    let w = g.param(zeros(&[3, 5]));
    let plain = g.einsum(String::from("bsi,ij->bsj"), vec![x, w], false);
    assert_eq!(plain.len(), 1);
    assert_eq!(shape(&g, plain[0]), vec![1, 2, 5]);
    assert_eq!(g.init_values[plain[0]].as_ref().unwrap().sf, 2 * SF);
    let scaled = g.einsum(String::from("bsi,ij->bsj"), vec![x, w], true);
    assert_eq!(scaled.len(), 2);
    assert_eq!(g.init_values[scaled[0]].as_ref().unwrap().sf, SF);
    assert_eq!(kinds(&g), vec!["Einsum", "Einsum", "ScaleDown"]);
    assert_eq!(g.range, vec![2]);
    let up = g.scale(x, SF, SF + 2);
    assert_eq!(g.init_values[up[0]].as_ref().unwrap().sf, SF + 2);
    assert_eq!(kinds(&g)[3], "ScaleUp");
}

#[test]
fn masks_clamps_and_exponentials_are_built() {
    let mut g = DagBuilder::new(SF, 16);
    let x = g.input(vec![3], DataType::Float);
    let m = g.mask(x, vec![3]);
    assert_eq!(shape(&g, m), vec![3]);
    assert_eq!(table(g.init_values[1].as_ref().unwrap()), vec![1, 1, 1, 0]);
    let y = g.clamp_lower(x);
    assert_eq!(shape(&g, y), vec![3]);
    let expected = vec![
        "Einsum", "Einsum", "ClampLower", "Sub", "ChangeShape", "NonNegative", "Add",
        "ChangeShape", "NonNegative", "Einsum", "ZeroCheck",
    ];
    assert_eq!(kinds(&g), expected);
    assert_eq!(g.zero_check, vec![10]);
    assert_eq!(g.range, vec![5, 8]);
    let e = g.exp(x)[0];
    assert_eq!(shape(&g, e), vec![3]);
    assert_eq!(g.init_values[e].as_ref().unwrap().sf, SF);
    assert_eq!(g.two_pow.len(), 1);
    let s = g.sigmoid(x)[0];
    assert_eq!(shape(&g, s), vec![3]);
    assert_eq!(g.two_pow.len(), 2);
    assert_eq!(g.init_values.len(), g.num_edges);
    let t = g.param(zeros(&[3]));
    assert_eq!(g.nonstructured_exp(x, t).len(), 2);
}

#[test]
fn dimensions_are_split_and_joined() {
    let mut g = DagBuilder::new(SF, 16);
    let x = g.input(vec![1, 2, 6], DataType::Float);
    let split = g.reshape(x, vec![1, 2, 2, 3])[0];
    assert_eq!(shape(&g, split), vec![1, 2, 2, 3]);
    let joined = g.reshape(split, vec![1, 2, 6])[0];
    assert_eq!(shape(&g, joined), vec![1, 2, 6]);
}

#[test]
fn graphs_are_compiled() {
    let mut g = DagBuilder::new(SF, 16);
    let a = g.input(vec![2], DataType::Float);
    let b = g.input(vec![2], DataType::Float);
    let s = g.add(a, b)[0];
    let d = g.sub(s, a)[0];
    g.add_nonneg_node(s);
    g.add_zero_check_node(d);
    let (dag, values) = g.compile();
    check_order(&dag);
    // The roots go on the stack in order and the last comes off first.
    assert_eq!(dag.topo, vec![0, 2, 1, 3]);
    assert_eq!(dag.input_ports, vec![a, b]);
    assert_eq!(dag.consumers[a], vec![0, 1]);
    assert_eq!(dag.consumers[s], vec![1, 2]);
    assert_eq!(dag.producers[s], Some(0));
    assert_eq!(dag.producers[a], None);
    // What no node reads, what is range-checked, and what is asserted to be zero.
    assert_eq!(dag.output_ports, vec![4, 5, s, d]);
    assert_eq!(dag.num_edges, 6);
    assert_eq!(dag.producers[5], Some(3));
    assert_eq!(values[5][0].shape, vec![1]);
    assert_eq!(values[5][0].role, Role::Auxiliary);
    assert_eq!(dag.alias_to_edge, vec![a, b, s, a, s, d]);
    assert_eq!(dag.alias_to_consumer, vec![0, 0, 1, 1, 2, 3]);
    assert_eq!(dag.alias_input_slot, vec![0, 1, 0, 1, 0, 0]);
    assert_eq!(dag.edge_aliases[a].len(), 2);
    assert_eq!(values.len(), dag.num_edges);
    assert!(values.iter().all(|v| v.len() == 1));
}

#[test]
fn reciprocals_are_bound_to_their_inputs() {
    let mut g = DagBuilder::new(SF, 16);
    let x = g.input(vec![1, 2, 4], DataType::Float);
    let r = g.reciprocal(x)[0];
    assert_eq!(shape(&g, r), vec![1, 2, 4]);
    let expected = vec![
        "Reciprocal", "Einsum", "ScaleDown", "Sub", "Add", "Sub", "NonNegative", "NonNegative",
    ];
    assert_eq!(kinds(&g), expected);
    let unit = g.init_values[r + 1].as_ref().unwrap();
    assert_eq!(table(unit), vec![32768]);
    assert_eq!(table(g.init_values[r + 2].as_ref().unwrap()), vec![512]);
    let rms = g.rms_reciprocal(x)[0];
    assert_eq!(shape(&g, rms), vec![1, 2, 1]);
    let q = g.div_const(x, 7)[0];
    assert_eq!(shape(&g, q), vec![1, 2, 4]);
    let c = g.softmax_const(x)[0];
    assert_eq!(shape(&g, c), vec![1, 2, 4]);
}

#[test]
fn rotations_of_pairs() {
    // Columns of the matrix that swaps the entries of each pair.
    let m = ints(&pair_swap_perm_matrix(4));
    let x = [10, 20, 30, 40];
    for j in 0..4 {
        let y: i128 = (0..4).map(|i| x[i] * m[i + 4 * j]).sum();
        assert_eq!(y, [20, 10, 40, 30][j]);
    }
    assert_eq!(ints(&rope_cos_vec(&[5, -6])), vec![5, 5, -6, -6]);
    assert_eq!(ints(&rope_sin_vec(&[5, -6])), vec![5, -5, -6, 6]);
    // Three positions are padded to four; pair `i` at position `m` stands at `3 i + m`.
    let numbers = [1, 2, 3, 4, 5, 6];
    assert_eq!(
        ints(&rope_cos_mat(4, 3, &numbers)),
        vec![1, 2, 3, 0, 1, 2, 3, 0, 4, 5, 6, 0, 4, 5, 6, 0]
    );
    assert_eq!(
        ints(&rope_sin_mat(4, 3, &numbers)),
        vec![1, 2, 3, 0, -1, -2, -3, 0, 4, 5, 6, 0, -4, -5, -6, 0]
    );
    // The tables hold the rows of the single positions.
    let (cos, sin) = (rope_cos_mat(4, 3, &numbers), rope_sin_mat(4, 3, &numbers));
    for m in 0..3 {
        let row = [numbers[m], numbers[3 + m]];
        let (c, s) = (rope_cos_vec(&row), rope_sin_vec(&row));
        for j in 0..4 {
            assert!(cos[m + 4 * j].equals(&c[j]));
            assert!(sin[m + 4 * j].equals(&s[j]));
        }
    }
    // Large numbers are kept whole.
    assert_eq!(ints(&rope_sin_vec(&[1 << 40])), vec![1 << 40, -(1 << 40)]);
    let mut g = DagBuilder::new(SF, 16);
    let a = g.input(vec![1, 1, 2, 4], DataType::Float);
    let out = g.rope(a, &[1, 2], &[3, 4])[0];
    assert_eq!(shape(&g, out), vec![1, 1, 2, 4]);
}

#[test]
fn future_positions_are_masked() {
    let big = -1000 * 4;
    // Query positions along the first dimension and key positions along the second.
    assert_eq!(ints(&causal_mask_data(&[2, 2], 2, 2)), vec![0, 0, big, 0]);
    let three = ints(&causal_mask_data(&[3, 3], 3, 0));
    for key in 0..4 {
        for query in 0..4 {
            let masked = key < 3 && query < key;
            assert_eq!(three[query + 4 * key], if masked { -1000 } else { 0 });
        }
    }
    let mut g = DagBuilder::new(SF, 16);
    let scores = g.input(vec![1, 2, 4, 4], DataType::Float);
    let masked = g.causal_mask(scores, 4);
    assert_eq!(shape(&g, masked), vec![1, 2, 4, 4]);
}

#[test]
fn tokens_are_looked_up() {
    let s = DagBuilder::build_one_hot_selector_pub(3, 5, &[4, 0, 2]);
    let t = table(&s);
    assert_eq!(t.len(), 4 * 8);
    assert_eq!(t.iter().sum::<i128>(), 3);
    assert_eq!(t[4 * 4], 1);
    assert_eq!(t[1], 1);
    assert_eq!(t[2 + 2 * 4], 1);
    // A row picks the entry at its index out of any column.
    let column = [7, 8, 9, 10, 11, 0, 0, 0];
    let picked: Vec<i128> =
        (0..3).map(|i| (0..8).map(|v| t[i + 4 * v] * column[v]).sum()).collect();
    assert_eq!(picked, vec![11, 7, 9]);
    let mut g = DagBuilder::new(SF, 16);
    let w_e = g.param(zeros(&[5, 4]));
    let (h, selector) = g.embedding_lookup(w_e, 3, 5, &[4, 0, 2]);
    assert_eq!(shape(&g, h), vec![3, 4]);
    assert_eq!(g.init_values[h].as_ref().unwrap().sf, SF);
    assert_eq!(shape(&g, selector), vec![3, 5]);
    let p = g.add_positional_encoding(h, zeros(&[3, 4]));
    assert_eq!(shape(&g, p), vec![3, 4]);
    let hidden = g.change_shape(p, vec![1, 3, 4]);
    let logits = g.lm_head_weight_tied(hidden, w_e, 3, 5);
    assert_eq!(shape(&g, logits), vec![3, 5]);
    let before = g.range.len();
    let argmax = g.argmax_check(logits, 3, 5, &[0, 0, 0]);
    assert_eq!(shape(&g, argmax), vec![3, 5]);
    assert_eq!(g.range.len(), before + 1);
    let (dag, _) = g.compile();
    check_order(&dag);
}

#[test]
fn layers_are_piped() {
    let mut g = DagBuilder::new(SF, 16);
    let x = g.input(vec![1, 2, 8], DataType::Float);
    let w = g.param(zeros(&[8]));
    let norm = g.pipe(&[x], llama_rms_norm(w))[0];
    assert_eq!(shape(&g, norm), vec![1, 2, 8]);
    let norm = g.pipe(&[norm], nanogpt_layer_norm(w))[0];
    assert_eq!(shape(&g, norm), vec![1, 2, 8]);
    let (w_1, w_2) = (g.param(zeros(&[8, 16])), g.param(zeros(&[8, 16])));
    let w_3 = g.param(zeros(&[16, 8]));
    let out = g.pipe(&[norm], llama_mlp(w_1, w_2, w_3))[0];
    assert_eq!(shape(&g, out), vec![1, 2, 8]);
    let out = g.pipe(&[out], nanogpt_mlp(w_1, w_3, 55771))[0];
    assert_eq!(shape(&g, out), vec![1, 2, 8]);
    let q = g.param(zeros(&[8, 8]));
    let cos = g.param(zeros(&[2, 4]));
    let out = g.pipe(&[out], llama_attention(q, q, q, q, 2, 4, 2, cos, cos, 16384))[0];
    assert_eq!(shape(&g, out), vec![1, 2, 8]);
    let out = g.pipe(&[out, x], nanogpt_attention(q, q, q, q, 2, 4, 2, 16384))[0];
    assert_eq!(shape(&g, out), vec![1, 2, 8]);
    let wte = g.param(zeros(&[5, 8]));
    let pos = g.param(zeros(&[1, 2, 8]));
    let logits = g.pipe(&[out], nanogpt_lm_head(wte))[0];
    assert_eq!(shape(&g, logits), vec![1, 2, 5]);
    let emb = g.pipe(&[logits], nanogpt_embeddings(wte, pos))[0];
    assert_eq!(shape(&g, emb), vec![1, 2, 8]);
    assert_eq!(g.init_values.len(), g.num_edges);
    let (dag, _) = g.compile();
    check_order(&dag);
}

#[test]
fn nanogpt_is_built_and_compiled() {
    assert_eq!(NANO_HEAD_DIM * NANO_N_HEAD, NANO_N_EMBD);
    assert_eq!(NANO_MLP_HIDDEN, 4 * NANO_N_EMBD);
    let seq_len = 2;
    assert!(seq_len <= NANO_BLOCK_SIZE);
    let w = generate_nanogpt_weights(seq_len, SF);
    let mut g = DagBuilder::new(SF, 16);
    let x = g.input(vec![1, seq_len, NANO_VOCAB_SIZE], DataType::Float);
    let layer = nanogpt(
        w.wte, w.pos_emb, w.attn_norm_w, w.attn_q_w, w.attn_k_w, w.attn_v_w, w.attn_o_w,
        w.proj_norm_w, w.proj_1_w, w.proj_2_w, w.layer_norm_w, w.attention_mask, NANO_N_LAYER,
        NANO_N_HEAD, NANO_HEAD_DIM, seq_len, 8192, 55771,
    );
    let out = g.pipe(&[x], layer)[0];
    assert_eq!(shape(&g, out), vec![1, seq_len, NANO_VOCAB_SIZE]);
    assert_eq!(g.two_pow.len(), 2 * NANO_N_LAYER);
    assert_eq!(g.init_values.len(), g.num_edges);
    let (dag, values) = g.compile();
    check_order(&dag);
    assert_eq!(dag.input_ports, vec![x]);
    assert_eq!(values.len(), dag.num_edges);
}

#[test]
fn llama_is_built_and_compiled() {
    let (layers, heads, head_dim, seq_len, vocab) = (2, 2, 4, 2, 5);
    let hidden = heads * head_dim;
    let many = |s: &[usize]| -> Vec<Witness> { (0..layers).map(|_| zeros(s)).collect() };
    let mut g = DagBuilder::new(SF, 16);
    let x = g.input(vec![1, seq_len, hidden], DataType::Float);
    let square = [hidden, hidden];
    let layer = llama_2_7b(
        many(&[hidden]), many(&square), many(&square), many(&square), many(&square),
        many(&[hidden]), many(&[hidden, 16]), many(&[hidden, 16]), many(&[16, hidden]),
        zeros(&[hidden]), zeros(&[hidden, vocab]), heads, head_dim, seq_len, vocab,
        vec![32768, 17705, 32768, 32766], vec![0, 27573, 0, 328], 16384,
    );
    let out = g.pipe(&[x], layer)[0];
    assert_eq!(shape(&g, out), vec![seq_len, vocab]);
    assert_eq!(g.two_pow.len(), 2 * layers);
    let (dag, _) = g.compile();
    check_order(&dag);
    assert_eq!(dag.input_ports, vec![x]);
}
