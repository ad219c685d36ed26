//! Weights of GPT-2 Small, stored or random.
use crate::arith::{ceil_log, lemma_ceil_log_unique, lemma_few_dims, log2_ceil, num_vars};
use crate::dag::builder::{one_edge, three_dims, two_edges};
use crate::field::{vals, CryptoField, Fr};
use crate::math::two_to;
use crate::model::random::{has_norm, has_signed, norm_tensor, signed_tensor};
use crate::model::tensor::{pad_1d, pad_2d_col_major, padded_matrix, padded_row};
use crate::witness::{dense_value, DataType, Role, Value, Witness};
use vstd::arithmetic::power2::pow2;
use vstd::prelude::*;

verus! {

/// The width of an embedding.
pub const EMBED: usize = 768;

/// The width of the hidden layer of a projection.
pub const FF: usize = 3072;

/// The number of blocks.
pub const N_LAYERS: usize = 12;

/// The number of tensors of a block.
pub const KINDS: usize = 16;

/// The number of tensors of the model.
pub const TENSORS: usize = 194;

/// The names of the tensors of a block, in the order of their kinds.
pub fn gpt2_tensor_names() -> (r: Vec<&'static str>)
    ensures
        r@.len() == KINDS,
        r@[0]@ == "ln_1.weight"@,
        r@[1]@ == "attn.c_attn.weight_q"@,
        r@[2]@ == "attn.c_attn.weight_k"@,
        r@[3]@ == "attn.c_attn.weight_v"@,
        r@[4]@ == "attn.c_proj.weight"@,
        r@[5]@ == "ln_1.bias"@,
        r@[6]@ == "attn.c_attn.bias_q"@,
        r@[7]@ == "attn.c_attn.bias_k"@,
        r@[8]@ == "attn.c_attn.bias_v"@,
        r@[9]@ == "attn.c_proj.bias"@,
        r@[10]@ == "ln_2.weight"@,
        r@[11]@ == "mlp.c_fc.weight"@,
        r@[12]@ == "mlp.c_proj.weight"@,
        r@[13]@ == "ln_2.bias"@,
        r@[14]@ == "mlp.c_fc.bias"@,
        r@[15]@ == "mlp.c_proj.bias"@,
{
    let mut r: Vec<&'static str> = Vec::new();
    r.push("ln_1.weight");
    r.push("attn.c_attn.weight_q");
    r.push("attn.c_attn.weight_k");
    r.push("attn.c_attn.weight_v");
    r.push("attn.c_proj.weight");
    r.push("ln_1.bias");
    r.push("attn.c_attn.bias_q");
    r.push("attn.c_attn.bias_k");
    r.push("attn.c_attn.bias_v");
    r.push("attn.c_proj.bias");
    r.push("ln_2.weight");
    r.push("mlp.c_fc.weight");
    r.push("mlp.c_proj.weight");
    r.push("ln_2.bias");
    r.push("mlp.c_fc.bias");
    r.push("mlp.c_proj.bias");
    r
}

/// The shape of the tensors of a kind.
pub open spec fn kind_shape(kind: int) -> Seq<usize> {
    if 1 <= kind <= 4 {
        seq![EMBED, EMBED]
    } else if kind == 11 {
        seq![EMBED, FF]
    } else if kind == 12 {
        seq![FF, EMBED]
    } else if kind == 14 {
        seq![FF]
    } else {
        seq![EMBED]
    }
}

/// The shape of the tensors of a kind.
fn shape_of_kind(kind: usize) -> (r: Vec<usize>)
    ensures
        r@ == kind_shape(kind as int),
{
    if 1 <= kind && kind <= 4 {
        two_edges(EMBED, EMBED)
    } else if kind == 11 {
        two_edges(EMBED, FF)
    } else if kind == 12 {
        two_edges(FF, EMBED)
    } else if kind == 14 {
        one_edge(FF)
    } else {
        one_edge(EMBED)
    }
}

/// The index bits of the dimensions of the model.
proof fn lemma_gpt2_dims(kind: int)
    ensures
        ceil_log(1) == 0,
        ceil_log(EMBED as int) == 10,
        ceil_log(FF as int) == 12,
        num_vars(kind_shape(kind)) < usize::BITS,
        num_vars(seq![EMBED]) == 10,
{
    vstd::arithmetic::power2::lemma2_to64();
    lemma_ceil_log_unique(1, 0);
    lemma_ceil_log_unique(768, 10);
    lemma_ceil_log_unique(3072, 12);
    lemma_few_dims(EMBED, EMBED, 1);
    lemma_few_dims(EMBED, FF, 1);
    lemma_few_dims(FF, EMBED, 1);
}

/// The weights of GPT-2: for each block its tensors in the order of their kinds, the last
/// normalisation, and an attention mask.
#[derive(Debug)]
pub struct Gpt2Weights {
    pub layers: Vec<Vec<Witness>>,
    pub layer_norm_w: Witness,
    pub layer_norm_b: Witness,
    pub attention_mask: Witness,
}

/// A stored tensor of one or two dimensions.
pub open spec fn stored_value(shape: Seq<usize>, data: Seq<i64>, sf: usize) -> Value {
    let pad = |d: usize| pow2(ceil_log(d as int));
    let table = if shape.len() == 1 {
        padded_row(data, pad(shape[0]))
    } else {
        padded_matrix(data, shape[0] as nat, shape[1] as nat, pad(shape[0]), pad(shape[1]))
    };
    dense_value(shape, table, DataType::Float, sf, Role::Constant)
}

/// The number of entries of a tensor of one or two dimensions.
pub open spec fn stored_count(shape: Seq<usize>) -> int {
    if shape.len() == 1 {
        shape[0] as int
    } else {
        shape[0] * shape[1]
    }
}

/// The shape of the stored tensor with a number: those of the blocks, one after the other, and then
/// the two of the last normalisation.
pub open spec fn shape_at(j: int) -> Seq<usize> {
    if j < 192 {
        kind_shape(j % 16)
    } else {
        seq![EMBED]
    }
}

/// The stored numbers are as many as the tensors have entries.
pub open spec fn complete(raw: Seq<Vec<i64>>) -> bool {
    &&& raw.len() == TENSORS
    &&& forall|j: int|
        0 <= j < TENSORS ==> (#[trigger] raw[j])@.len() == stored_count(shape_at(j))
}

/// A stored vector.
fn load_1d(data: &Vec<i64>, n: usize, sf: usize) -> (r: Witness)
    requires
        data@.len() == n,
        num_vars(seq![n]) < usize::BITS,
    ensures
        r@ == stored_value(seq![n], data@, sf),
{
    proof {
        lemma_few_dims(n, 1, 1);
    }
    let padded = two_to(log2_ceil(n));
    let table = pad_1d(data.as_slice(), n, padded);
    assert(vals(table@) == padded_row(data@, pow2(ceil_log(n as int))));
    Witness::new(one_edge(n), table, DataType::Float, sf, Role::Constant)
}

/// A stored matrix.
fn load_2d(data: &Vec<i64>, rows: usize, cols: usize, sf: usize) -> (r: Witness)
    requires
        data@.len() == rows * cols,
        num_vars(seq![rows, cols]) < usize::BITS,
    ensures
        r@ == stored_value(seq![rows, cols], data@, sf),
{
    proof {
        lemma_few_dims(rows, cols, 1);
        crate::arith::lemma_ceil_log(rows as int);
        crate::arith::lemma_ceil_log(cols as int);
        vstd::arithmetic::power2::lemma_pow2_adds(ceil_log(rows as int), ceil_log(cols as int));
    }
    let (rows_log, cols_log) = (log2_ceil(rows), log2_ceil(cols));
    let size = two_to(rows_log + cols_log);
    let rows_pad = two_to(rows_log);
    let cols_pad = two_to(cols_log);
    let table = pad_2d_col_major(data.as_slice(), rows, cols, rows_pad, cols_pad);
    assert(size == rows_pad * cols_pad);
    assert(vals(table@) == padded_matrix(
        data@,
        rows as nat,
        cols as nat,
        pow2(ceil_log(rows as int)),
        pow2(ceil_log(cols as int)),
    ));
    Witness::new(two_edges(rows, cols), table, DataType::Float, sf, Role::Constant)
}

/// A stored tensor of a kind.
fn load_kind(data: &Vec<i64>, kind: usize, sf: usize) -> (r: Witness)
    requires
        data@.len() == stored_count(kind_shape(kind as int)),
    ensures
        r@ == stored_value(kind_shape(kind as int), data@, sf),
{
    proof {
        lemma_gpt2_dims(kind as int);
    }
    let shape = shape_of_kind(kind);
    if shape.len() == 1 {
        assert(shape@ =~= seq![shape@[0]]);
        load_1d(data, shape[0], sf)
    } else {
        assert(shape@ =~= seq![shape@[0], shape@[1]]);
        load_2d(data, shape[0], shape[1], sf)
    }
}

/// The number of entries of the tensors of a kind.
fn count_of_kind(kind: usize) -> (r: usize)
    ensures
        r == stored_count(kind_shape(kind as int)),
{
    let shape = shape_of_kind(kind);
    if shape.len() == 1 {
        shape[0]
    } else {
        assert(shape@ =~= seq![EMBED, EMBED] || shape@ =~= seq![EMBED, FF] || shape@ =~= seq![
            FF,
            EMBED,
        ]);
        shape[0] * shape[1]
    }
}

/// Whether the stored numbers are as many as the tensors have entries.
fn is_complete(raw: &Vec<Vec<i64>>) -> (r: bool)
    ensures
        r == complete(raw@),
{
    if raw.len() != TENSORS {
        return false;
    }
    let mut j: usize = 0;
    while j < TENSORS
        invariant
            j <= TENSORS,
            raw@.len() == TENSORS,
            forall|k: int| 0 <= k < j ==> (#[trigger] raw@[k])@.len() == stored_count(shape_at(k)),
        decreases TENSORS - j,
    {
        let count = if j < 192 {
            count_of_kind(j % 16)
        } else {
            EMBED
        };
        assert(count == stored_count(shape_at(j as int)));
        if raw[j].len() != count {
            assert(raw@[j as int]@.len() != stored_count(shape_at(j as int)));
            return false;
        }
        j += 1;
    }
    true
}

/// The tensors of block `i` are those stored.
pub open spec fn layer_stored(layer: Seq<Witness>, raw: Seq<Vec<i64>>, i: int, sf: usize) -> bool {
    &&& layer.len() == KINDS
    &&& forall|k: int|
        0 <= k < KINDS ==> (#[trigger] layer[k])@ == stored_value(
            kind_shape(k),
            raw[16 * i + k]@,
            sf,
        )
}

/// The weights from the numbers of all tensors: those of the blocks, one after the other, each in the
/// order of their kinds, and then the weight and the bias of the last normalisation. There are none
/// where some tensor has not the right number of entries. The attention mask, which no layer reads,
/// is zero.
pub fn load_gpt2_weights(raw: &Vec<Vec<i64>>, seq_len: usize, sf: usize) -> (r: Option<
    Gpt2Weights,
>)
    requires
        num_vars(seq![1, seq_len, seq_len]) < usize::BITS,
    ensures
        r is Some <==> complete(raw@),
        r matches Some(w) ==> {
            &&& w.layers@.len() == N_LAYERS
            &&& forall|i: int|
                0 <= i < N_LAYERS ==> layer_stored((#[trigger] w.layers@[i])@, raw@, i, sf)
            &&& w.layer_norm_w@ == stored_value(seq![EMBED], raw@[192]@, sf)
            &&& w.layer_norm_b@ == stored_value(seq![EMBED], raw@[193]@, sf)
            &&& w.attention_mask@ == dense_value(
                seq![1, seq_len, seq_len],
                Seq::new(pow2(num_vars(seq![1, seq_len, seq_len])), |p: int| 0int),
                DataType::Float,
                sf,
                Role::Constant,
            )
        },
{
    if !is_complete(raw) {
        return None;
    }
    let mut layers: Vec<Vec<Witness>> = Vec::new();
    let mut i: usize = 0;
    while i < N_LAYERS
        invariant
            i <= N_LAYERS,
            complete(raw@),
            layers@.len() == i,
            forall|k: int|
                0 <= k < i ==> layer_stored((#[trigger] layers@[k])@, raw@, k, sf),
        decreases N_LAYERS - i,
    {
        let mut layer: Vec<Witness> = Vec::new();
        let mut k: usize = 0;
        while k < KINDS
            invariant
                i < N_LAYERS,
                k <= KINDS,
                complete(raw@),
                layer@.len() == k,
                forall|m: int|
                    0 <= m < k ==> (#[trigger] layer@[m])@ == stored_value(
                        kind_shape(m),
                        raw@[16 * i + m]@,
                        sf,
                    ),
            decreases KINDS - k,
        {
            assert(raw@[16 * i + k]@.len() == stored_count(shape_at(16 * i + k)));
            layer.push(load_kind(&raw[16 * i + k], k, sf));
            k += 1;
        }
        layers.push(layer);
        i += 1;
    }
    proof {
        lemma_gpt2_dims(0);
        assert(raw@[192]@.len() == stored_count(shape_at(192)));
        assert(raw@[193]@.len() == stored_count(shape_at(193)));
    }
    let layer_norm_w = load_1d(&raw[192], EMBED, sf);
    let layer_norm_b = load_1d(&raw[193], EMBED, sf);
    let dims = three_dims(1, seq_len, seq_len);
    let zeros = Fr::repeat(Fr::zero(), two_to(crate::arith::get_n(dims.as_slice())));
    assert(vals(zeros@) =~= Seq::new(
        pow2(num_vars(seq![1, seq_len, seq_len])),
        |p: int| 0int,
    ));
    let attention_mask = Witness::new(dims, zeros, DataType::Float, sf, Role::Constant);
    Some(Gpt2Weights { layers, layer_norm_w, layer_norm_b, attention_mask })
}

/// A random tensor of a kind: the weights of normalisations are close to one, and all others have
/// mean zero and a range that fits the number of entries that are added up.
pub open spec fn is_random_kind(w: Witness, kind: int, sf: usize) -> bool {
    if kind == 0 || kind == 10 {
        has_norm(w, kind_shape(kind), sf)
    } else if kind == 12 {
        has_signed(w, kind_shape(kind), 32, sf)
    } else {
        has_signed(w, kind_shape(kind), 64, sf)
    }
}

/// The tensors of a block are random.
pub open spec fn layer_random(layer: Seq<Witness>, sf: usize) -> bool {
    &&& layer.len() == KINDS
    &&& forall|k: int| 0 <= k < KINDS ==> is_random_kind(#[trigger] layer[k], k, sf)
}

/// Random weights for a number of positions.
pub fn generate_gpt2_weights(rng: &mut rand::rngs::StdRng, seq_len: usize, sf: usize) -> (r:
    Gpt2Weights)
    requires
        num_vars(seq![1, seq_len, seq_len]) < usize::BITS,
        sf < 64,
    ensures
        r.layers@.len() == N_LAYERS,
        forall|i: int| 0 <= i < N_LAYERS ==> layer_random((#[trigger] r.layers@[i])@, sf),
        has_norm(r.layer_norm_w, seq![EMBED], sf),
        has_signed(r.layer_norm_b, seq![EMBED], 64, sf),
        has_signed(r.attention_mask, seq![1, seq_len, seq_len], 500, sf),
{
    let mut layers: Vec<Vec<Witness>> = Vec::new();
    let mut i: usize = 0;
    while i < N_LAYERS
        invariant
            i <= N_LAYERS,
            sf < 64,
            layers@.len() == i,
            forall|k: int| 0 <= k < i ==> layer_random((#[trigger] layers@[k])@, sf),
        decreases N_LAYERS - i,
    {
        let mut layer: Vec<Witness> = Vec::new();
        let mut k: usize = 0;
        while k < KINDS
            invariant
                k <= KINDS,
                sf < 64,
                layer@.len() == k,
                forall|m: int| 0 <= m < k ==> is_random_kind(#[trigger] layer@[m], m, sf),
            decreases KINDS - k,
        {
            proof {
                lemma_gpt2_dims(k as int);
            }
            let shape = shape_of_kind(k);
            let w = if k == 0 || k == 10 {
                norm_tensor(rng, shape, sf)
            } else if k == 12 {
                signed_tensor(rng, shape, 32, sf)
            } else {
                signed_tensor(rng, shape, 64, sf)
            };
            layer.push(w);
            k += 1;
        }
        layers.push(layer);
        i += 1;
    }
    proof {
        lemma_gpt2_dims(0);
    }
    let layer_norm_w = norm_tensor(rng, one_edge(EMBED), sf);
    let layer_norm_b = signed_tensor(rng, one_edge(EMBED), 64, sf);
    let attention_mask = signed_tensor(rng, three_dims(1, seq_len, seq_len), 500, sf);
    Gpt2Weights { layers, layer_norm_w, layer_norm_b, attention_mask }
}

} // verus!
