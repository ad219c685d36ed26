use rand::rngs::StdRng;
use rand::SeedableRng;
use zktransformer::arith::f_to_int;
use zktransformer::field::Fr;
use zktransformer::model::bench::{build_inputs, llama_2_7b_einsum_specs, rand_point, rand_witness};
use zktransformer::model::decode::{
    extract_argmax_at, next_tokens, shift_violation, starting_tokens,
};
use zktransformer::model::gpt2::{
    generate_gpt2_weights, gpt2_tensor_names, load_gpt2_weights, EMBED, FF, KINDS, N_LAYERS,
    TENSORS,
};
use zktransformer::model::llama::{
    assemble_oneshot_circuit, build_oneshot_circuit, generate_llama_weights,
};
use zktransformer::model::nanogpt::build_nanogpt_circuit;
use zktransformer::model::random::{
    gen_norm_weight, gen_signed, generate_random_field_vec, norm_weights, signed_tensor,
    signed_weights, small_weights,
};
use zktransformer::model::stored::{words_from_bytes, words_to_bytes};
use zktransformer::model::tensor::{
    i64_to_field, pad_1d, pad_2d_col_major, pad_3d_col_major, witness_to_row_major_i64,
};
use zktransformer::witness::{DataType, Poly, Role, Witness};

const SF: usize = 15;

fn ints(v: &[Fr]) -> Vec<i128> {
    v.iter().map(|x| f_to_int(*x)).collect()
}

fn table(w: &Witness) -> Vec<i128> {
    match w.data.as_ref().unwrap() {
        Poly::Dense(p) => ints(&p.evaluations),
        Poly::Sparse(_) => panic!("not dense"),
    }
}

#[test]
fn row_major_numbers_are_stored_by_columns() {
    assert_eq!(f_to_int(i64_to_field(-5)), -5);
    assert_eq!(f_to_int(i64_to_field(i64::MIN)), i64::MIN as i128);
    assert_eq!(ints(&pad_1d(&[1, -2, 3], 3, 4)), vec![1, -2, 3, 0]);
    assert_eq!(ints(&pad_1d(&[1, -2, 3], 3, 2)), vec![1, -2, 3]);
    // Rows (1 2 3) and (4 5 6).
    let matrix = pad_2d_col_major(&[1, 2, 3, 4, 5, 6], 2, 3, 2, 4);
    assert_eq!(ints(&matrix), vec![1, 4, 2, 5, 3, 6, 0, 0]);
    let cube = pad_3d_col_major(&[1, 2, 3, 4, 5, 6], 1, 3, 2, 1, 4, 2);
    assert_eq!(ints(&cube), vec![1, 3, 5, 0, 2, 4, 6, 0]);
    let deep = pad_3d_col_major(&[1, 2, 3, 4, 5, 6, 7, 8], 2, 2, 2, 2, 2, 2);
    assert_eq!(ints(&deep), vec![1, 5, 3, 7, 2, 6, 4, 8]);
}

#[test]
fn tensors_are_read_in_row_major_order() {
    let data = [1, -2, 3, 4, 5, 6];
    let padded = pad_3d_col_major(&data, 1, 3, 2, 1, 4, 2);
    let w = Witness::new(vec![1, 3, 2], padded, DataType::Float, SF, Role::Output);
    assert_eq!(witness_to_row_major_i64(&w), data.to_vec());
    let data = [i64::MIN + 1, i64::MAX, 0, -1, 7, 8, 9, 10, 11, 12, 13, 14];
    let padded = pad_3d_col_major(&data, 2, 3, 2, 2, 4, 2);
    let w = Witness::new(vec![2, 3, 2], padded, DataType::Float, SF, Role::Output);
    assert_eq!(witness_to_row_major_i64(&w), data.to_vec());
    let data = [1, -2, 3, 4, 5, 6];
    let matrix = pad_2d_col_major(&data, 2, 3, 2, 4);
    let w = Witness::new(vec![2, 3], matrix, DataType::Float, SF, Role::Output);
    assert_eq!(witness_to_row_major_i64(&w), data.to_vec());
}

#[test]
fn numbers_are_stored_in_eight_bytes() {
    let words = [0, 1, -1, i64::MIN, i64::MAX, 0x0102_0304_0506_0708];
    let bytes = words_to_bytes(&words);
    assert_eq!(bytes.len(), 48);
    assert_eq!(&bytes[40..], &[8, 7, 6, 5, 4, 3, 2, 1]);
    assert_eq!(&bytes[16..24], &[0xff; 8]);
    assert_eq!(words_from_bytes(&bytes), words.to_vec());
    // What is left at the end is ignored.
    assert_eq!(words_from_bytes(&bytes[..20]), vec![0, 1]);
    for (i, w) in words.iter().enumerate() {
        assert_eq!(&bytes[8 * i..8 * i + 8], &w.to_le_bytes());
    }
}

#[test]
fn the_most_likely_token_is_the_first_largest() {
    // Two positions and four tokens.
    let values = [1, 9, -4, 2, 7, 9, 7, 9];
    let data = values.iter().map(|v| Fr::from_i128(*v)).collect();
    let w = Witness::new(vec![2, 4], data, DataType::Float, SF, Role::Output);
    assert_eq!(extract_argmax_at(&w, 0, 2, 4), 2);
    assert_eq!(extract_argmax_at(&w, 1, 2, 4), 0);
    assert_eq!(extract_argmax_at(&w, 0, 2, 2), 0);
    assert_eq!(extract_argmax_at(&w, 0, 2, 0), 0);
    assert_eq!(next_tokens(&w, 2, 4), vec![2, 0]);
}

#[test]
fn generated_tokens_follow_the_model() {
    let tokens = [5, 6, 7, 8];
    assert_eq!(shift_violation(&tokens, &[6, 7, 8, 9], 1), None);
    assert_eq!(shift_violation(&tokens, &[0, 7, 8, 9], 1), Some(0));
    // The prompt is not checked.
    assert_eq!(shift_violation(&tokens, &[0, 7, 8, 9], 2), None);
    assert_eq!(shift_violation(&tokens, &[0, 7, 0, 9], 2), Some(2));
    assert_eq!(shift_violation(&tokens, &[0, 0, 0, 0], 4), None);
}

#[test]
fn prompts_are_drawn_from_words() {
    assert_eq!(starting_tokens(&[5, 256, 1000], 5, 256), vec![5, 0, 232, 0, 0]);
    assert_eq!(starting_tokens(&[], 2, 7), vec![0, 0]);
}

#[test]
fn words_become_weights() {
    assert_eq!(ints(&signed_weights(&[0, 2, 4, 5, 7], 2)), vec![-2, 0, 2, -2, 0]);
    assert_eq!(ints(&norm_weights(&[0, 32, 64, 65], 15)), vec![32736, 32768, 32800, 32736]);
    assert_eq!(ints(&norm_weights(&[0, 64], 40)), vec![(1 << 40) - 32, (1 << 40) + 32]);
    assert_eq!(ints(&norm_weights(&[0, 64], 2)), vec![-28, 36]);
    assert_eq!(ints(&small_weights(&[7, 500, 1234], 500)), vec![7, 0, 234]);
}

#[test]
fn random_weights_are_in_range() {
    let mut rng = StdRng::seed_from_u64(42);
    let signed = ints(&gen_signed(&mut rng, 1000, 64));
    assert_eq!(signed.len(), 1000);
    assert!(signed.iter().all(|v| -64 <= *v && *v <= 64));
    assert!(signed.iter().any(|v| *v < 0) && signed.iter().any(|v| *v > 0));
    let norm = ints(&gen_norm_weight(&mut rng, 100, SF));
    assert!(norm.iter().all(|v| 32736 <= *v && *v <= 32800));
    let small = ints(&generate_random_field_vec(1000, 500));
    assert!(small.iter().all(|v| 0 <= *v && *v < 500));
    assert!(small.iter().any(|v| *v != small[0]));
    // The same seed gives the same weights.
    let mut again = StdRng::seed_from_u64(42);
    assert_eq!(ints(&gen_signed(&mut again, 1000, 64)), signed);
    let w = signed_tensor(&mut rng, vec![3, 5], 10, SF);
    assert_eq!(table(&w).len(), 32);
    assert_eq!(w.role, Role::Constant);
}

#[test]
fn stored_weights_are_loaded() {
    let names = gpt2_tensor_names();
    assert_eq!(names.len(), KINDS);
    let count = |j: usize| -> usize {
        let name = if j < KINDS * N_LAYERS { names[j % KINDS] } else { "ln_f.weight" };
        match name {
            "mlp.c_fc.weight" | "mlp.c_proj.weight" => EMBED * FF,
            "mlp.c_fc.bias" => FF,
            "ln_1.weight" | "ln_2.weight" | "ln_f.weight" => EMBED,
            _ if name.contains("weight") => EMBED * EMBED,
            _ => EMBED,
        }
    };
    // Short lists are refused.
    let mut raw: Vec<Vec<i64>> = vec![Vec::new(); TENSORS];
    assert!(load_gpt2_weights(&raw, 2, SF).is_none());
    assert!(load_gpt2_weights(&Vec::new(), 2, SF).is_none());
    // The right numbers of entries everywhere but in the last list.
    for j in 0..TENSORS - 1 {
        raw[j] = vec![1; count(j).min(EMBED)];
    }
    assert!(load_gpt2_weights(&raw, 2, SF).is_none());
}

#[test]
fn llama_weights_have_their_shapes() {
    let mut rng = StdRng::seed_from_u64(1);
    let w = generate_llama_weights(&mut rng, 2, 8, 12, 5, SF);
    assert_eq!(w.attn_q_w.len(), 2);
    assert_eq!(w.attn_q_w[1].shape, vec![8, 8]);
    assert_eq!(w.proj_1_w[0].shape, vec![8, 12]);
    assert_eq!(w.proj_3_w[0].shape, vec![12, 8]);
    assert_eq!(w.logits_w.shape, vec![8, 5]);
    assert!(table(&w.attn_q_w[0]).iter().all(|v| v.abs() <= 64));
    assert!(table(&w.proj_3_w[0]).iter().all(|v| v.abs() <= 32));
    assert!(table(&w.layer_norm_w).iter().all(|v| (v - 32768).abs() <= 32));
    assert_eq!(table(&w.proj_1_w[0]).len(), 8 * 16);
}

#[test]
fn transcripts_are_checked_at_once() {
    let mut rng = StdRng::seed_from_u64(1);
    let (heads, head_dim, seq_len, vocab) = (2, 4, 2, 5);
    let w_e = signed_tensor(&mut rng, vec![vocab, heads * head_dim], 2000, SF);
    let weights = generate_llama_weights(&mut rng, 1, heads * head_dim, 12, vocab, SF);
    let cosines = [32768, 17705, 32768, 32766];
    let sines = [0, 27573, 0, 328];
    let (dag, init, logits, embedding, selector) = assemble_oneshot_circuit(
        w_e, weights, heads, head_dim, seq_len, vocab, &[3, 1], &cosines, &sines, 16384, SF, 16,
    );
    assert_eq!(init.len(), dag.num_edges);
    assert_eq!(init[logits][0].shape, vec![seq_len, vocab]);
    // The tokens are selected, and zeros stand for the next ones.
    let at = |e: usize, i: usize, v: usize| table(&init[e][0])[i + 2 * v];
    assert_eq!((at(embedding, 0, 3), at(embedding, 1, 1)), (1, 1));
    assert_eq!((at(selector, 0, 0), at(selector, 1, 0)), (1, 1));
    assert!(dag.input_ports.is_empty());
    assert_eq!(dag.topo.len(), dag.nodes.len());
}

#[test]
fn random_models_are_checked_at_once() {
    let (cosines, sines) = ([32768, 17705, 32768, 32766], [0, 27573, 0, 328]);
    let build = |seed: u64| {
        build_oneshot_circuit(2, 5, 1, 2, 4, 12, &[3, 1], seed, &cosines, &sines, 16384, SF, 16)
    };
    let (dag, init, logits, embedding, selector) = build(42);
    for e in [logits, embedding, selector] {
        assert_eq!(init[e][0].shape, vec![2, 5]);
    }
    assert_eq!(table(&init[embedding][0])[2 * 3], 1);
    assert_eq!(dag.topo.len(), dag.nodes.len());
    // The first constant is the embedding; it is a function of the seed.
    assert_eq!(init[0][0].shape, vec![5, 8]);
    assert!(table(&init[0][0]).iter().all(|v| v.abs() <= 2000));
    assert_eq!(table(&build(42).1[0][0]), table(&init[0][0]));
    assert_ne!(table(&build(43).1[0][0]), table(&init[0][0]));
}

#[test]
fn nanogpt_circuits_are_compiled() {
    let (dag, init, x, logits) = build_nanogpt_circuit(3, 8192, 55771, SF, 16);
    assert_eq!(dag.input_ports, vec![x]);
    assert_eq!(init[x][0].shape, vec![1, 3, 65]);
    assert_eq!(init[logits][0].shape, vec![1, 3, 65]);
    assert_eq!(init[logits][0].sf, SF);
    assert!(dag.nodes.len() <= 289 * 4 + 72);
}

#[test]
fn sums_of_products_of_the_model_are_listed() {
    let specs = llama_2_7b_einsum_specs();
    let counts: Vec<usize> = specs.iter().map(|s| s.1).collect();
    assert_eq!(counts, vec![128, 64, 32, 64, 64, 96, 1]);
    assert_eq!(specs[0].0.equation, "bsi,ij->bsj");
    assert_eq!(specs[1].0.input_shapes, vec![vec![1, 1, 4096], vec![4096, 11008]]);
    assert_eq!(specs[5].0.per_layer, 3);
    assert_eq!(specs[6].0.tag, "logits (bij,jk->ik, W=(4096,32000))");
    // The shapes fit the equations.
    for (spec, _) in &specs {
        assert!(
            zktransformer::dag::equation::output_shape(spec.equation, &spec.input_shapes).is_some()
        );
    }
}

#[test]
fn inputs_for_measurements_are_made() {
    let shapes = vec![vec![2, 3], vec![3, 5]];
    let (witnesses, claim, edges) = build_inputs("ij,jk->ik", &shapes, SF);
    assert_eq!(witnesses.len(), 3);
    assert_eq!(witnesses[2].shape, vec![2, 5]);
    assert_eq!(claim.point.len(), 4);
    assert_eq!(f_to_int(claim.eval), 0);
    assert_eq!(edges, vec![0, 1, 2]);
    assert!(table(&witnesses[0]).iter().all(|v| 0 <= *v && *v < 1000));
    assert_eq!(table(&rand_witness(vec![3], SF)).len(), 4);
    assert_eq!(rand_point(7).len(), 7);
}

#[test]
fn random_models_have_all_tensors() {
    // The whole model is too large for a test; the names and the counts are not.
    assert_eq!(TENSORS, KINDS * N_LAYERS + 2);
    let _: fn(&mut StdRng, usize, usize) -> zktransformer::model::gpt2::Gpt2Weights =
        generate_gpt2_weights;
}
