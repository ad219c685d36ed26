//! The sums of products of LLaMA-2-7B, for measurements.
use crate::arith::{get_n, num_vars};
use crate::dag::builder::{one_edge, three_dims, two_edges};
use crate::dag::equation::{equation_ok, equation_shape, output_shape, shapes_view};
use crate::field::{vals, CryptoField, Fr};
use crate::model::random::{generate_random_field_vec, has_below, is_below, small_tensor};
use crate::witness::{copy_words, Claim, Witness};
use vstd::prelude::*;

verus! {

/// A sum of products: a label, its equation, the shapes of its inputs and how often a block has it.
#[derive(Debug)]
pub struct OpSpec {
    pub tag: &'static str,
    pub equation: &'static str,
    pub input_shapes: Vec<Vec<usize>>,
    pub per_layer: usize,
}

impl OpSpec {
    /// What the sum of products is.
    pub open spec fn is(
        &self,
        tag: Seq<char>,
        equation: Seq<char>,
        shapes: Seq<Seq<usize>>,
        per_layer: usize,
    ) -> bool {
        &&& self.tag@ == tag
        &&& self.equation@ == equation
        &&& shapes_view(self.input_shapes@) == shapes
        &&& self.per_layer == per_layer
    }
}

/// A list of one shape.
fn one_shape(a: Vec<usize>) -> (r: Vec<Vec<usize>>)
    ensures
        shapes_view(r@) == seq![a@],
{
    let mut r: Vec<Vec<usize>> = Vec::new();
    r.push(a);
    assert(shapes_view(r@) =~= seq![a@]);
    r
}

/// A list of two shapes.
fn two_shapes(a: Vec<usize>, b: Vec<usize>) -> (r: Vec<Vec<usize>>)
    ensures
        shapes_view(r@) == seq![a@, b@],
{
    let mut r: Vec<Vec<usize>> = Vec::new();
    r.push(a);
    r.push(b);
    assert(shapes_view(r@) =~= seq![a@, b@]);
    r
}

/// The sums of products of LLaMA-2-7B for one position, with how often each is there in the whole
/// model of 32 blocks.
pub fn llama_2_7b_einsum_specs() -> (r: Vec<(OpSpec, usize)>)
    ensures
        r@.len() == 7,
        r@[0].0.is(
            "attn_qkvo (bsi,ij->bsj, W=(4096,4096))"@,
            "bsi,ij->bsj"@,
            seq![seq![1, 1, 4096], seq![4096, 4096]],
            4,
        ) && r@[0].1 == 128,
        r@[1].0.is(
            "mlp_proj12 (bsi,ij->bsj, W=(4096,11008))"@,
            "bsi,ij->bsj"@,
            seq![seq![1, 1, 4096], seq![4096, 11008]],
            2,
        ) && r@[1].1 == 64,
        r@[2].0.is(
            "mlp_proj3 (bsi,ij->bsj, W=(11008,4096))"@,
            "bsi,ij->bsj"@,
            seq![seq![1, 1, 11008], seq![11008, 4096]],
            1,
        ) && r@[2].1 == 32,
        r@[3].0.is(
            "rmsnorm sq (bsi,bsi->bsi)"@,
            "bsi,bsi->bsi"@,
            seq![seq![1, 1, 4096], seq![1, 1, 4096]],
            2,
        ) && r@[3].1 == 64,
        r@[4].0.is(
            "rmsnorm mul (bsi,i->bsi)"@,
            "bsi,i->bsi"@,
            seq![seq![1, 1, 4096], seq![4096]],
            2,
        ) && r@[4].1 == 64,
        r@[5].0.is(
            "qkv transpose (bshd->bhsd)"@,
            "bshd->bhsd"@,
            seq![seq![1, 1, 32, 128]],
            3,
        ) && r@[5].1 == 96,
        r@[6].0.is(
            "logits (bij,jk->ik, W=(4096,32000))"@,
            "bij,jk->ik"@,
            seq![seq![1, 1, 4096], seq![4096, 32000]],
            0,
        ) && r@[6].1 == 1,
{
    let num_layers: usize = 32;
    let mut r: Vec<(OpSpec, usize)> = Vec::new();
    let attn_qkvo = OpSpec {
        tag: "attn_qkvo (bsi,ij->bsj, W=(4096,4096))",
        equation: "bsi,ij->bsj",
        input_shapes: two_shapes(three_dims(1, 1, 4096), two_edges(4096, 4096)),
        per_layer: 4,
    };
    r.push((attn_qkvo, num_layers * 4));
    let mlp_proj12 = OpSpec {
        tag: "mlp_proj12 (bsi,ij->bsj, W=(4096,11008))",
        equation: "bsi,ij->bsj",
        input_shapes: two_shapes(three_dims(1, 1, 4096), two_edges(4096, 11008)),
        per_layer: 2,
    };
    r.push((mlp_proj12, num_layers * 2));
    let mlp_proj3 = OpSpec {
        tag: "mlp_proj3 (bsi,ij->bsj, W=(11008,4096))",
        equation: "bsi,ij->bsj",
        input_shapes: two_shapes(three_dims(1, 1, 11008), two_edges(11008, 4096)),
        per_layer: 1,
    };
    r.push((mlp_proj3, num_layers));
    let rmsnorm_sq = OpSpec {
        tag: "rmsnorm sq (bsi,bsi->bsi)",
        equation: "bsi,bsi->bsi",
        input_shapes: two_shapes(three_dims(1, 1, 4096), three_dims(1, 1, 4096)),
        per_layer: 2,
    };
    r.push((rmsnorm_sq, num_layers * 2));
    let rmsnorm_mul = OpSpec {
        tag: "rmsnorm mul (bsi,i->bsi)",
        equation: "bsi,i->bsi",
        input_shapes: two_shapes(three_dims(1, 1, 4096), one_edge(4096)),
        per_layer: 2,
    };
    r.push((rmsnorm_mul, num_layers * 2));
    let qkv_perm = OpSpec {
        tag: "qkv transpose (bshd->bhsd)",
        equation: "bshd->bhsd",
        input_shapes: one_shape(crate::dag::builder::four_dims(1, 1, 32, 128)),
        per_layer: 3,
    };
    r.push((qkv_perm, num_layers * 3));
    let logits = OpSpec {
        tag: "logits (bij,jk->ik, W=(4096,32000))",
        equation: "bij,jk->ik",
        input_shapes: two_shapes(three_dims(1, 1, 4096), two_edges(4096, 32000)),
        per_layer: 0,
    };
    r.push((logits, 1));
    r
}

/// A constant with random entries below 1000.
pub fn rand_witness(shape: Vec<usize>, sf: usize) -> (r: Witness)
    requires
        num_vars(shape@) < usize::BITS,
    ensures
        has_below(r, shape@, 1000, sf),
{
    small_tensor(shape, 1000, sf)
}

/// A point with random coordinates below 1000.
pub fn rand_point(n: usize) -> (r: Vec<Fr>)
    ensures
        is_below(vals(r@), n as nat, 1000),
{
    generate_random_field_vec(n, 1000)
}

/// The shapes have tables that can be held.
pub open spec fn shapes_fit(shapes: Seq<Seq<usize>>) -> bool {
    forall|i: int| 0 <= i < shapes.len() ==> num_vars(#[trigger] shapes[i]) < usize::BITS
}

/// Random inputs and a random output of a sum of products, a claim that the output is zero at a
/// random point, and the numbers of the edges.
pub fn build_inputs(equation: &str, input_shapes: &Vec<Vec<usize>>, sf: usize) -> (r: (
    Vec<Witness>,
    Claim,
    Vec<usize>,
))
    requires
        equation_ok(equation@, shapes_view(input_shapes@)),
        shapes_fit(shapes_view(input_shapes@)),
        num_vars(equation_shape(equation@, shapes_view(input_shapes@))) < usize::BITS,
        input_shapes@.len() < usize::MAX,
    ensures
        r.0@.len() == input_shapes@.len() + 1,
        forall|i: int|
            0 <= i < input_shapes@.len() ==> has_below(
                #[trigger] r.0@[i],
                input_shapes@[i]@,
                1000,
                sf,
            ),
        has_below(
            r.0@[input_shapes@.len() as int],
            equation_shape(equation@, shapes_view(input_shapes@)),
            1000,
            sf,
        ),
        r.1.edge_id == 0,
        r.1.sparse_id == 0,
        is_below(
            vals(r.1.point@),
            num_vars(equation_shape(equation@, shapes_view(input_shapes@))),
            1000,
        ),
        r.1.eval@ == 0,
        r.2@ == Seq::new(r.0@.len(), |i: int| i as usize),
{
    let ghost views = shapes_view(input_shapes@);
    let out_shape = output_shape(equation, input_shapes).unwrap();
    let out_n = get_n(out_shape.as_slice());
    let mut witnesses: Vec<Witness> = Vec::new();
    let mut edge_ids: Vec<usize> = Vec::new();
    let mut i: usize = 0;
    while i < input_shapes.len()
        invariant
            i <= input_shapes@.len(),
            views == shapes_view(input_shapes@),
            shapes_fit(views),
            witnesses@.len() == i,
            forall|k: int|
                0 <= k < i ==> has_below(#[trigger] witnesses@[k], input_shapes@[k]@, 1000, sf),
            edge_ids@ == Seq::new(i as nat, |i: int| i as usize),
        decreases input_shapes.len() - i,
    {
        assert(views[i as int] == input_shapes@[i as int]@);
        witnesses.push(rand_witness(copy_words(input_shapes[i].as_slice()), sf));
        edge_ids.push(i);
        i += 1;
    }
    let point = rand_point(out_n);
    witnesses.push(rand_witness(out_shape, sf));
    edge_ids.push(i);
    let claim = Claim { edge_id: 0, sparse_id: 0, point, eval: Fr::zero() };
    (witnesses, claim, edge_ids)
}

} // verus!
