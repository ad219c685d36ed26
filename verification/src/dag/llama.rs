//! The layers of LLaMA.
use crate::arith::{ceil_log, num_vars, power_of_two};
use crate::basicblock::llama::last_dropped;
use crate::basicblock::{BasicBlockType, DivConst, RMSReciprocal, Reciprocal, SoftmaxConst};
use crate::dag::builder::{four_dims, one_edge, three_dims, two_edges, DagBuilder};
use crate::dag::equation::{letters, letters_of};
use crate::dag::graph::{Graph, Op};
use crate::dag::rotary::{
    causal_mask_data, causal_table, cos_row, pair_swap, pair_swap_perm_matrix, rope_cos_mat,
    rope_cos_vec, rope_sin_mat, rope_sin_vec, rotation_fits, rotation_table, sin_row,
};
use crate::dag::EdgeId;
use crate::field::{vals, Fr};
use crate::witness::{empty_value, Role, Value, Witness};
use vstd::arithmetic::power2::pow2;
use vstd::prelude::*;
use vstd::string::{StrSliceExecFns, StringExecFns};

verus! {

broadcast use crate::dag::graph::group_ok;

impl Graph {
    /// A constant of one entry.
    #[verifier::opaque]
    pub open spec fn scalar(self, v: u64, sf: usize) -> (Graph, usize) {
        self.constant(seq![1usize], seq![v as int], sf)
    }

    /// One, with the fractional bits of the graph.
    #[verifier::opaque]
    pub open spec fn unit(self, sf: usize) -> (Graph, usize) {
        self.need(self.sf_log < 64).scalar(pow2(self.sf_log as nat) as u64, sf)
    }

    /// The reciprocals of the root mean squares along the last dimension; nothing is known of them
    /// where nothing is known of the input.
    #[verifier::opaque]
    pub open spec fn rms_reciprocal(self, x: usize) -> (Graph, Seq<usize>) {
        let v = self.value(x);
        let g = self.need(x < self.values.len() && (self.known(x) ==> v.shape.len() >= 1));
        let g = if self.known(x) {
            g.with_value(empty_value(last_dropped(v.shape), v.data_type, v.sf, Role::Auxiliary))
        } else {
            Graph { values: g.values.push(None), ..g }
        };
        g.with_node(seq![x], Op::RMSReciprocal)
    }

    #[verifier::opaque]
    pub open spec fn div_const(self, a: usize, c: usize) -> (Graph, Seq<usize>) {
        let v = self.value(a);
        self.need(self.known(a)).with_value(
            empty_value(v.shape, v.data_type, v.sf, Role::Output),
        ).with_node(seq![a], Op::DivConst(c))
    }

    /// Checks that a tensor is within a tolerance of zero.
    #[verifier::opaque]
    pub open spec fn within(self, difference: usize, tolerance: usize) -> Graph {
        let (g, above) = self.plus(difference, tolerance);
        let (g, below) = g.minus(tolerance, difference);
        g.nonneg(above[0]).nonneg(below[0])
    }

    /// The reciprocals of a tensor's entries, bound to it: their product with the entries is one up
    /// to a tolerance of 512.
    #[verifier::opaque]
    pub open spec fn reciprocal(self, a: usize) -> (Graph, Seq<usize>) {
        let v = self.value(a);
        let s = letters_of(v.shape.len());
        let g = self.need(self.known(a) && v.shape.len() <= 26);
        let (g, r) = g.with_value(
            empty_value(v.shape, v.data_type, v.sf, Role::Auxiliary),
        ).with_node(seq![a], Op::Reciprocal);
        let (g, unit) = g.unit(v.sf);
        let (g, tolerance) = g.scalar(512, v.sf);
        let (g, z) = g.einsum(s + ","@ + s + "->"@ + s, seq![a, r[0]], true);
        let (g, z_diff) = g.minus(z[0], unit);
        (g.within(z_diff[0], tolerance), seq![r[0]])
    }

    /// The shifts of the softmax along the last dimension.
    #[verifier::opaque]
    pub open spec fn softmax_const(self, a: usize) -> (Graph, Seq<usize>) {
        let v = self.value(a);
        self.need(self.known(a) && v.shape.len() >= 1).with_value(
            empty_value(v.shape, v.data_type, v.sf, Role::Output),
        ).with_node(seq![a], Op::SoftmaxConst(v.shape.last()))
    }

    /// The tensor with the entries of each pair along the last dimension swapped.
    #[verifier::opaque]
    pub open spec fn swap_pairs(self, a: usize) -> (Graph, Seq<usize>) {
        let shape = self.value(a).shape;
        let d = shape.last();
        let g = self.need(
            self.known(a) && shape.len() >= 1 && d % 2 == 0 && d * d <= usize::MAX,
        );
        let (g, perm) = g.constant(seq![d, d], pair_swap(d as nat), 0);
        g.einsum("bshd,de->bshe"@, seq![a, perm], false)
    }

    /// The rotation of the pairs along the last dimension, by the given cosines and sines.
    #[verifier::opaque]
    pub open spec fn rotate(self, a: usize, swapped: usize, cos: usize, sin: usize) -> (
        Graph,
        Seq<usize>,
    ) {
        let (g, sin_branch) = self.einsum("bshd,sd->bshd"@, seq![swapped, sin], true);
        let (g, cos_branch) = g.einsum("bshd,sd->bshd"@, seq![a, cos], true);
        let (g, out) = g.plus(sin_branch[0], cos_branch[0]);
        (g, seq![out[0]])
    }

    /// Rotary position embedding of one position.
    #[verifier::opaque]
    pub open spec fn rope(self, a: usize, cosines: Seq<i64>, sines: Seq<i64>) -> (
        Graph,
        Seq<usize>,
    ) {
        let d = self.value(a).shape.last();
        let (g, swapped) = self.swap_pairs(a);
        let g = g.need(2 * cosines.len() == d && 2 * sines.len() == d);
        let (g, sin) = g.constant(seq![1, d], sin_row(sines), self.sf_log);
        let (g, cos) = g.constant(seq![1, d], cos_row(cosines), self.sf_log);
        g.rotate(a, swapped[0], cos, sin)
    }

    /// Rotary position embedding of all positions.
    #[verifier::opaque]
    pub open spec fn rope_with_vecs(self, a: usize, cos: usize, sin: usize) -> (
        Graph,
        Seq<usize>,
    ) {
        let (g, swapped) = self.swap_pairs(a);
        g.rotate(a, swapped[0], cos, sin)
    }

    /// Attention scores with those of future positions masked.
    #[verifier::opaque]
    pub open spec fn causal_mask(self, scores: usize, seq_len: usize) -> (Graph, usize) {
        let v = self.value(scores);
        let g = self.need(
            self.known(scores) && v.shape.len() >= 2 && v.sf <= 22 && num_vars(v.shape)
                < usize::BITS,
        );
        let (g, mask) = g.constant(
            v.shape,
            causal_table(v.shape, seq_len as nat, v.sf as nat),
            v.sf,
        );
        let (g, out) = g.plus(scores, mask);
        (g, out[0])
    }
}

pub broadcast proof fn lemma_scalar_ok(g: Graph, v: u64, sf: usize)
    ensures
        (#[trigger] g.scalar(v, sf)).0.ok ==> g.ok,
{
    reveal(Graph::scalar);
}

pub broadcast proof fn lemma_unit_ok(g: Graph, sf: usize)
    ensures
        (#[trigger] g.unit(sf)).0.ok ==> g.ok,
{
    reveal(Graph::unit);
    lemma_scalar_ok(g.need(g.sf_log < 64), pow2(g.sf_log as nat) as u64, sf);
}

pub broadcast proof fn lemma_rms_reciprocal_ok(g: Graph, x: usize)
    ensures
        (#[trigger] g.rms_reciprocal(x)).0.ok ==> g.ok,
{
    reveal(Graph::rms_reciprocal);
}

pub broadcast proof fn lemma_div_const_ok(g: Graph, a: usize, c: usize)
    ensures
        (#[trigger] g.div_const(a, c)).0.ok ==> g.ok,
{
    reveal(Graph::div_const);
}

pub broadcast proof fn lemma_within_ok(g: Graph, d: usize, t: usize)
    ensures
        (#[trigger] g.within(d, t)).ok ==> g.ok,
{
    reveal(Graph::within);
}

pub broadcast proof fn lemma_softmax_const_ok(g: Graph, a: usize)
    ensures
        (#[trigger] g.softmax_const(a)).0.ok ==> g.ok,
{
    reveal(Graph::softmax_const);
}

pub broadcast proof fn lemma_swap_pairs_ok(g: Graph, a: usize)
    ensures
        (#[trigger] g.swap_pairs(a)).0.ok ==> g.ok,
{
    reveal(Graph::swap_pairs);
}

pub broadcast proof fn lemma_rotate_ok(g: Graph, a: usize, s: usize, cos: usize, sin: usize)
    ensures
        (#[trigger] g.rotate(a, s, cos, sin)).0.ok ==> g.ok,
{
    reveal(Graph::rotate);
}

pub broadcast proof fn lemma_rope_with_vecs_ok(g: Graph, a: usize, cos: usize, sin: usize)
    ensures
        (#[trigger] g.rope_with_vecs(a, cos, sin)).0.ok ==> g.ok,
{
    reveal(Graph::rope_with_vecs);
    lemma_swap_pairs_ok(g, a);
    let (h, s) = g.swap_pairs(a);
    lemma_rotate_ok(h, a, s[0], cos, sin);
}

pub broadcast proof fn lemma_causal_mask_ok(g: Graph, scores: usize, seq_len: usize)
    ensures
        (#[trigger] g.causal_mask(scores, seq_len)).0.ok ==> g.ok,
{
    reveal(Graph::causal_mask);
}

/// Every step only makes a graph that is `ok` from one that is.
pub broadcast group group_llama_ok {
    lemma_scalar_ok,
    lemma_unit_ok,
    lemma_rms_reciprocal_ok,
    lemma_div_const_ok,
    lemma_within_ok,
    lemma_softmax_const_ok,
    lemma_swap_pairs_ok,
    lemma_rotate_ok,
    lemma_rope_with_vecs_ok,
    lemma_causal_mask_ok,
}

impl DagBuilder {
    /// A constant of one entry.
    pub(crate) fn scalar(&mut self, v: u64, sf: usize) -> (r: EdgeId)
        requires
            old(self)@.scalar(v, sf).0.ok,
        ensures
            (final(self)@, r) == old(self)@.scalar(v, sf),
    {
        proof {
            reveal(Graph::scalar);
            crate::field::lemma_modulus_bounds();
        }
        let mut data: Vec<Fr> = Vec::new();
        data.push(Fr::from_u64(v));
        let shape = one_edge(1);
        proof {
            assert(vals(data@) =~= seq![v as int]);
            lemma_small_shape(shape@);
        }
        self.constant(shape, data, sf)
    }

    /// One, with the fractional bits of the graph.
    pub(crate) fn unit(&mut self, sf: usize) -> (r: EdgeId)
        requires
            old(self)@.unit(sf).0.ok,
        ensures
            (final(self)@, r) == old(self)@.unit(sf),
    {
        broadcast use group_llama_ok;

        proof {
            reveal(Graph::unit);
            lemma_scalar_ok(
                self@.need(self@.sf_log < 64),
                pow2(self@.sf_log as nat) as u64,
                sf,
            );
        }
        let one = power_of_two(self.sf_log);
        assert(self@.need(self@.sf_log < 64) == self@);
        self.scalar(one, sf)
    }

    /// The reciprocals of the root mean squares along the last dimension.
    pub fn rms_reciprocal(&mut self, x: EdgeId) -> (r: Vec<EdgeId>)
        requires
            old(self)@.rms_reciprocal(x).0.ok,
        ensures
            (final(self)@, r@) == old(self)@.rms_reciprocal(x),
            r@.len() == 1,
    {
        proof {
            reveal(Graph::rms_reciprocal);
            assert(self@.values[x as int] == crate::dag::builder::value_view(
                self.init_values@[x as int],
            ));
        }
        if self.init_values[x].is_some() {
            let mut shape = self.shape_of(x);
            let v = self.known_value(x);
            let (data_type, sf) = (v.data_type, v.sf);
            let last = shape.len() - 1;
            shape.set(last, 1);
            self.push_value(Witness::new_wo_data(shape, data_type, sf, Role::Auxiliary));
        } else {
            let ghost before = self.init_values@;
            self.init_values.push(None);
            assert(crate::dag::builder::value_views(self.init_values@)
                =~= crate::dag::builder::value_views(before).push(None));
        }
        self.add_gkr_node(one_edge(x), BasicBlockType::RMSReciprocal(RMSReciprocal))
    }

    /// The entries of a tensor divided by a constant.
    pub fn div_const(&mut self, a: EdgeId, c: usize) -> (r: Vec<EdgeId>)
        requires
            old(self)@.div_const(a, c).0.ok,
        ensures
            (final(self)@, r@) == old(self)@.div_const(a, c),
            r@.len() == 1,
    {
        proof {
            reveal(Graph::div_const);
        }
        let shape = self.shape_of(a);
        let v = self.known_value(a);
        let (data_type, sf) = (v.data_type, v.sf);
        self.push_value(Witness::new_wo_data(shape, data_type, sf, Role::Output));
        self.add_gkr_node(one_edge(a), BasicBlockType::DivConst(DivConst { c }))
    }

    /// Checks that a tensor is within a tolerance of zero.
    pub(crate) fn within(&mut self, difference: EdgeId, tolerance: EdgeId)
        requires
            old(self)@.within(difference, tolerance).ok,
        ensures
            final(self)@ == old(self)@.within(difference, tolerance),
    {
        proof {
            reveal(Graph::within);
        }
        let above = self.add(difference, tolerance)[0];
        let below = self.sub(tolerance, difference)[0];
        self.add_nonneg_node(above);
        self.add_nonneg_node(below);
    }

    /// The reciprocals of a tensor's entries, of the same shape. Their products with the entries are
    /// checked to be one up to a tolerance.
    pub fn reciprocal(&mut self, a: EdgeId) -> (r: Vec<EdgeId>)
        requires
            old(self)@.reciprocal(a).0.ok,
        ensures
            (final(self)@, r@) == old(self)@.reciprocal(a),
            r@.len() == 1,
    {
        broadcast use group_llama_ok;

        proof {
            reveal(Graph::reciprocal);
        }
        let shape = self.shape_of(a);
        let v = self.known_value(a);
        let (data_type, sf) = (v.data_type, v.sf);
        let s = letters(shape.len());
        let mut equation = String::from_str(s.as_str());
        equation.append(",");
        equation.append(s.as_str());
        equation.append("->");
        equation.append(s.as_str());
        self.push_value(Witness::new_wo_data(shape, data_type, sf, Role::Auxiliary));
        let r = self.add_gkr_node(one_edge(a), BasicBlockType::Reciprocal(Reciprocal))[0];
        let unit = self.unit(sf);
        let tolerance = self.scalar(512, sf);
        let z = self.einsum(equation, two_edges(a, r), true)[0];
        let z_diff = self.sub(z, unit)[0];
        self.within(z_diff, tolerance);
        one_edge(r)
    }

    /// The shifts of the softmax along the last dimension.
    pub fn softmax_const(&mut self, a: EdgeId) -> (r: Vec<EdgeId>)
        requires
            old(self)@.softmax_const(a).0.ok,
        ensures
            (final(self)@, r@) == old(self)@.softmax_const(a),
            r@.len() == 1,
    {
        proof {
            reveal(Graph::softmax_const);
        }
        let shape = self.shape_of(a);
        let v = self.known_value(a);
        let (data_type, sf) = (v.data_type, v.sf);
        let dim = shape[shape.len() - 1];
        self.push_value(Witness::new_wo_data(shape, data_type, sf, Role::Output));
        self.add_gkr_node(one_edge(a), BasicBlockType::SoftmaxConst(SoftmaxConst { dim }))
    }

    /// The tensor with the entries of each pair along the last dimension swapped.
    fn swap_pairs(&mut self, a: EdgeId) -> (r: Vec<EdgeId>)
        requires
            old(self)@.swap_pairs(a).0.ok,
        ensures
            (final(self)@, r@) == old(self)@.swap_pairs(a),
            r@.len() >= 1,
    {
        proof {
            reveal(Graph::swap_pairs);
        }
        let shape = self.shape_of(a);
        let d = shape[shape.len() - 1];
        let data = pair_swap_perm_matrix(d);
        let dims = two_edges(d, d);
        proof {
            lemma_small_shape(dims@);
        }
        let perm = self.constant(dims, data, 0);
        self.einsum_str("bshd,de->bshe", two_edges(a, perm), false)
    }

    /// The rotation of the pairs along the last dimension, by the given cosines and sines.
    fn rotate(&mut self, a: EdgeId, swapped: EdgeId, cos: EdgeId, sin: EdgeId) -> (r: Vec<EdgeId>)
        requires
            old(self)@.rotate(a, swapped, cos, sin).0.ok,
        ensures
            (final(self)@, r@) == old(self)@.rotate(a, swapped, cos, sin),
            r@.len() == 1,
    {
        proof {
            reveal(Graph::rotate);
        }
        let sin_branch = self.einsum_str("bshd,sd->bshd", two_edges(swapped, sin), true)[0];
        let cos_branch = self.einsum_str("bshd,sd->bshd", two_edges(a, cos), true)[0];
        let out = self.add(sin_branch, cos_branch)[0];
        one_edge(out)
    }

    /// Rotary position embedding of one position, with the cosines and the sines of the angles of
    /// that position for each pair, scaled and rounded.
    pub fn rope(&mut self, a: EdgeId, cosines: &[i64], sines: &[i64]) -> (r: Vec<EdgeId>)
        requires
            old(self)@.rope(a, cosines@, sines@).0.ok,
        ensures
            (final(self)@, r@) == old(self)@.rope(a, cosines@, sines@),
            r@.len() == 1,
    {
        broadcast use group_llama_ok;

        proof {
            reveal(Graph::rope);
            reveal(Graph::swap_pairs);
        }
        let shape = self.shape_of(a);
        let d = shape[shape.len() - 1];
        let sf_log = self.sf_log;
        let swapped = self.swap_pairs(a)[0];
        let dims = two_edges(1, d);
        proof {
            lemma_small_shape(dims@);
        }
        let sin = self.constant(dims, rope_sin_vec(sines), sf_log);
        let dims = two_edges(1, d);
        let cos = self.constant(dims, rope_cos_vec(cosines), sf_log);
        self.rotate(a, swapped, cos, sin)
    }

    /// Rotary position embedding of all positions, with the cosines and sines on two edges of shape
    /// `(positions, d)`.
    pub fn rope_with_vecs(&mut self, a: EdgeId, cos_param: EdgeId, sin_param: EdgeId) -> (r: Vec<
        EdgeId,
    >)
        requires
            old(self)@.rope_with_vecs(a, cos_param, sin_param).0.ok,
        ensures
            (final(self)@, r@) == old(self)@.rope_with_vecs(a, cos_param, sin_param),
            r@.len() == 1,
    {
        broadcast use group_llama_ok;

        proof {
            reveal(Graph::rope_with_vecs);
        }
        let swapped = self.swap_pairs(a)[0];
        self.rotate(a, swapped, cos_param, sin_param)
    }

    /// Masks the attention scores of future positions. The last two dimensions of the scores are
    /// the query and the key position. The mask is large enough that the exponential of what it is
    /// added to is zero.
    pub fn causal_mask(&mut self, scores: EdgeId, seq_len: usize) -> (r: EdgeId)
        requires
            old(self)@.causal_mask(scores, seq_len).0.ok,
        ensures
            (final(self)@, r) == old(self)@.causal_mask(scores, seq_len),
    {
        proof {
            reveal(Graph::causal_mask);
        }
        let shape = self.shape_of(scores);
        let sf = self.known_value(scores).sf;
        let data = causal_mask_data(shape.as_slice(), seq_len, sf);
        let mask = self.constant(shape, data, sf);
        self.add(scores, mask)[0]
    }
}

/// The edges of the weights of an attention.
pub ghost struct AttentionEdges {
    pub q: usize,
    pub k: usize,
    pub v: usize,
    pub o: usize,
}

/// The sizes of a rotary attention, the edges of its cosines and sines, and the reciprocal of the
/// square root of the width of a head.
pub ghost struct Rotary {
    pub num_heads: usize,
    pub head_dim: usize,
    pub seq_len: usize,
    pub cos: usize,
    pub sin: usize,
    pub root: u32,
}

/// The values of tensors.
pub open spec fn tensor_values(tensors: Seq<Witness>) -> Seq<Value> {
    tensors.map_values(|w: Witness| w@)
}

impl Graph {
    /// The mean of a sum over `n` entries, in the given shape, checked up to rounding.
    #[verifier::opaque]
    pub open spec fn checked_mean(self, sum: usize, n: usize, shape: Seq<usize>) -> (Graph, usize) {
        let (g, mean) = self.div_const(sum, n);
        let (g, mean) = g.change_shape(mean[0], shape);
        let (g, n_param) = g.scalar(n as u32 as u64, 0);
        let (g, tolerance) = g.scalar((n / 2) as u32 as u64, self.sf_log);
        let (g, product) = g.einsum("bsi,i->bsi"@, seq![mean, n_param], false);
        let (g, sum) = g.change_shape(sum, shape);
        let (g, difference) = g.minus(sum, product[0]);
        (g.within(difference[0], tolerance), mean)
    }

    /// The last dimension of a tensor scaled to a root mean square of one, and the weights applied.
    #[verifier::opaque]
    pub open spec fn rms_norm(self, x: usize, w: usize) -> (Graph, Seq<usize>) {
        let shape = self.value(x).shape;
        let seq = shape[1];
        let g = self.need(self.known(x) && shape.len() >= 2);
        let (g, r) = g.rms_reciprocal(x);
        let (g, unit) = g.unit(self.sf_log);
        let (g, tolerance) = g.scalar(512, self.sf_log);
        let (g, squares) = g.einsum("bsi,bsi->bsi"@, seq![x, x], true);
        let (g, sum) = g.einsum("bsi->bs"@, seq![squares[0]], false);
        let (g, mean) = g.checked_mean(sum[0], shape.last(), seq![1, seq, 1]);
        let (g, r_square) = g.einsum("bsi,bsi->bsi"@, seq![r[0], r[0]], false);
        let (g, z) = g.einsum("bsi,bsi->bsi"@, seq![mean, r_square[0]], true);
        let (g, z_diff) = g.minus(z[0], unit);
        let g = g.within(z_diff[0], tolerance);
        let (g, r) = g.change_shape(r[0], seq![1, seq]);
        let (g, h) = g.einsum("bsi,bs->bsi"@, seq![x, r], true);
        let (g, out) = g.einsum("bsi,i->bsi"@, seq![h[0], w], true);
        (g, seq![out[0]])
    }

    /// The gated projection: `w_3 (swish(w_1 x) * w_2 x)`.
    #[verifier::opaque]
    pub open spec fn gated_mlp(self, x: usize, w_1: usize, w_2: usize, w_3: usize) -> (
        Graph,
        Seq<usize>,
    ) {
        let (g, h_1) = self.einsum("bsi,ij->bsj"@, seq![x, w_1], true);
        let (g, sigmoid) = g.sigmoid(h_1[0]);
        let (g, swish) = g.einsum("bsi,bsi->bsi"@, seq![h_1[0], sigmoid[0]], true);
        let (g, h_2) = g.einsum("bsi,ij->bsj"@, seq![x, w_2], true);
        let (g, product) = g.einsum("bsi,bsi->bsi"@, seq![swish[0], h_2[0]], true);
        let (g, out) = g.einsum("bsi,ij->bsj"@, seq![product[0], w_3], true);
        (g, seq![out[0]])
    }

    /// The product of a tensor with weights, split into heads.
    #[verifier::opaque]
    pub open spec fn heads(self, x: usize, heads: Seq<usize>) -> (Graph, usize) {
        let (g, out) = self.reshape(x, heads);
        (g, out[0])
    }

    /// The products of the input with the weights of queries, keys and values, split into heads.
    #[verifier::opaque]
    pub open spec fn projections(self, x: usize, w: AttentionEdges, heads: Seq<usize>) -> (
        Graph,
        (usize, usize, usize),
    ) {
        let (g, q) = self.einsum("bsi,ij->bsj"@, seq![x, w.q], true);
        let (g, k) = g.einsum("bsi,ij->bsj"@, seq![x, w.k], true);
        let (g, v) = g.einsum("bsi,ij->bsj"@, seq![x, w.v], true);
        let (g, q) = g.heads(q[0], heads);
        let (g, k) = g.heads(k[0], heads);
        let (g, v) = g.heads(v[0], heads);
        (g, (q, k, v))
    }

    /// Attention of queries to keys and values, from heads first to the weighted output.
    #[verifier::opaque]
    pub open spec fn attend(
        self,
        parts: (usize, usize, usize),
        w_o: usize,
        root: u32,
        seq_len: usize,
        width: usize,
    ) -> (Graph, Seq<usize>) {
        let (g, q) = self.einsum("bshd->bhsd"@, seq![parts.0], false);
        let (g, k) = g.einsum("bshd->bhsd"@, seq![parts.1], false);
        let (g, v) = g.einsum("bshd->bhsd"@, seq![parts.2], false);
        let (g, root) = g.scalar(root as u64, self.sf_log);
        let (g, scores) = g.einsum("bhsd,bhtd->bhst"@, seq![q[0], k[0]], true);
        let (g, scores) = g.einsum("bhst,z->bhst"@, seq![scores[0], root], true);
        let (g, scores) = if seq_len > 1 {
            g.causal_mask(scores[0], seq_len)
        } else {
            (g, scores[0])
        };
        let (g, shift) = g.softmax_const(scores);
        let (g, scores) = g.plus(scores, shift[0]);
        let (g, scores) = g.exp(scores[0]);
        let (g, out) = g.einsum("bhst,bhtd->bhsd"@, seq![scores[0], v[0]], true);
        let (g, out) = g.einsum("bhsd->bshd"@, seq![out[0]], false);
        let (g, out) = g.reshape(out[0], seq![1, seq_len, width]);
        let (g, out) = g.einsum("bsi,ij->bsj"@, seq![out[0], w_o], true);
        (g, seq![out[0]])
    }

    /// Attention with rotary position embedding.
    #[verifier::opaque]
    pub open spec fn rotary_attention(self, x: usize, w: AttentionEdges, p: Rotary) -> (
        Graph,
        Seq<usize>,
    ) {
        let g = self.need(p.num_heads * p.head_dim <= usize::MAX);
        let (g, parts) = g.projections(x, w, seq![1, p.seq_len, p.num_heads, p.head_dim]);
        let (g, q) = g.rope_with_vecs(parts.0, p.cos, p.sin);
        let (g, k) = g.rope_with_vecs(parts.1, p.cos, p.sin);
        g.attend(
            (q[0], k[0], parts.2),
            w.o,
            p.root,
            p.seq_len,
            (p.num_heads * p.head_dim) as usize,
        )
    }

    /// Some constants.
    #[verifier::opaque]
    pub open spec fn params(self, values: Seq<Value>) -> Graph
        decreases values.len(),
    {
        if values.len() == 0 {
            self
        } else {
            self.params(values.drop_last()).param(values.last()).0
        }
    }

    /// The edge of a constant.
    pub open spec fn edge_after(self, i: int) -> usize {
        (self.num_edges + i) as usize
    }

    /// A block: attention and the gated projection, each of the normalised input and each added to
    /// its input. The weights are, in this order, those of the first normalisation, of the queries,
    /// keys, values and outputs of the attention, of the second normalisation and of the gated
    /// projection.
    #[verifier::opaque]
    pub open spec fn llama_block(self, x: usize, weights: Seq<Value>, p: Rotary) -> (
        Graph,
        Seq<usize>,
    ) {
        let w = AttentionEdges {
            q: self.edge_after(1),
            k: self.edge_after(2),
            v: self.edge_after(3),
            o: self.edge_after(4),
        };
        let g = self.params(weights);
        let (g, norm) = g.rms_norm(x, self.edge_after(0));
        let (g, attention) = g.rotary_attention(norm[0], w, p);
        let (g, middle) = g.plus(attention[0], x);
        let (g, norm) = g.rms_norm(middle[0], self.edge_after(5));
        let (g, projection) = g.gated_mlp(
            norm[0],
            self.edge_after(6),
            self.edge_after(7),
            self.edge_after(8),
        );
        let (g, out) = g.plus(projection[0], middle[0]);
        (g, seq![out[0]])
    }

    /// The first `k` blocks, with the weights of each kind by block.
    pub open spec fn llama_blocks(self, x: usize, weights: Seq<Seq<Value>>, p: Rotary, k: nat) -> (
        Graph,
        usize,
    )
        decreases k,
    {
        if k == 0 {
            (self, x)
        } else {
            let (g, y) = self.llama_blocks(x, weights, p, (k - 1) as nat);
            let (g, out) = g.llama_block(y, layer_weights(weights, k - 1), p);
            (g, out[0])
        }
    }

    /// The whole model: the blocks, the last normalisation and the product with the weights of the
    /// logits.
    pub open spec fn llama(
        self,
        x: usize,
        weights: Seq<Seq<Value>>,
        layer_norm: Value,
        logits: Value,
        num_heads: usize,
        head_dim: usize,
        seq_len: usize,
        vocab_size: usize,
        cosines: Seq<i64>,
        sines: Seq<i64>,
        root: u32,
    ) -> (Graph, Seq<usize>) {
        let (d, s) = (head_dim as nat, seq_len as nat);
        let g = self.need(
            rotation_fits(d, s, cosines) && rotation_fits(d, s, sines) && all_have(
                weights,
                weights[0].len(),
            ),
        );
        let dims = seq![seq_len, head_dim];
        let (g, cos) = g.constant(dims, rotation_table(d, s, cosines, false), self.sf_log);
        let (g, sin) = g.constant(dims, rotation_table(d, s, sines, true), self.sf_log);
        let p = Rotary { num_heads, head_dim, seq_len, cos, sin, root };
        let (g, y) = g.llama_blocks(x, weights, p, weights[0].len());
        let (g, w) = g.param(layer_norm);
        let (g, norm) = g.rms_norm(y, w);
        let (g, w) = g.param(logits);
        let (g, out) = g.einsum("bij,jk->ik"@, seq![norm[0], w], true);
        let (g, out) = g.change_shape(out[0], seq![seq_len, vocab_size]);
        (g, seq![out])
    }
}

/// The weights of one block.
pub open spec fn layer_weights(weights: Seq<Seq<Value>>, i: int) -> Seq<Value> {
    weights.map_values(|kind: Seq<Value>| kind[i])
}

/// There are weights of each kind for `n` blocks.
pub open spec fn all_have(weights: Seq<Seq<Value>>, n: nat) -> bool {
    forall|i: int| 0 <= i < weights.len() ==> (#[trigger] weights[i]).len() >= n
}

pub broadcast proof fn lemma_checked_mean_ok(g: Graph, s: usize, n: usize, shape: Seq<usize>)
    ensures
        (#[trigger] g.checked_mean(s, n, shape)).0.ok ==> g.ok,
{
    broadcast use group_llama_ok;

    reveal(Graph::checked_mean);
}

pub broadcast proof fn lemma_rms_norm_ok(g: Graph, x: usize, w: usize)
    ensures
        (#[trigger] g.rms_norm(x, w)).0.ok ==> g.ok,
{
    broadcast use group_llama_ok;
    broadcast use lemma_checked_mean_ok;

    reveal(Graph::rms_norm);
}

pub broadcast proof fn lemma_gated_mlp_ok(g: Graph, x: usize, a: usize, b: usize, c: usize)
    ensures
        (#[trigger] g.gated_mlp(x, a, b, c)).0.ok ==> g.ok,
{
    reveal(Graph::gated_mlp);
}

pub broadcast proof fn lemma_heads_ok(g: Graph, x: usize, heads: Seq<usize>)
    ensures
        (#[trigger] g.heads(x, heads)).0.ok ==> g.ok,
{
    reveal(Graph::heads);
}

pub broadcast proof fn lemma_projections_ok(
    g: Graph,
    x: usize,
    w: AttentionEdges,
    heads: Seq<usize>,
)
    ensures
        (#[trigger] g.projections(x, w, heads)).0.ok ==> g.ok,
{
    broadcast use lemma_heads_ok;

    reveal(Graph::projections);
}

pub broadcast proof fn lemma_attend_ok(
    g: Graph,
    parts: (usize, usize, usize),
    o: usize,
    root: u32,
    s: usize,
    width: usize,
)
    ensures
        (#[trigger] g.attend(parts, o, root, s, width)).0.ok ==> g.ok,
{
    broadcast use group_llama_ok;

    reveal(Graph::attend);
}

pub broadcast proof fn lemma_rotary_attention_ok(g: Graph, x: usize, w: AttentionEdges, p: Rotary)
    ensures
        (#[trigger] g.rotary_attention(x, w, p)).0.ok ==> g.ok,
{
    broadcast use group_llama_ok;
    broadcast use lemma_projections_ok;
    broadcast use lemma_attend_ok;

    reveal(Graph::rotary_attention);
}

/// Constants get the next edges.
pub broadcast proof fn lemma_params_ok(g: Graph, values: Seq<Value>)
    ensures
        (#[trigger] g.params(values)).ok ==> g.ok && g.params(values).num_edges == g.num_edges
            + values.len(),
    decreases values.len(),
{
    reveal(Graph::params);
    if values.len() > 0 {
        lemma_params_ok(g, values.drop_last());
    }
}

proof fn lemma_params_take(g: Graph, values: Seq<Value>, k: int)
    requires
        0 <= k <= values.len(),
        g.params(values).ok,
    ensures
        g.params(values.take(k)).ok,
    decreases values.len() - k,
{
    reveal(Graph::params);
    if k < values.len() {
        lemma_params_take(g, values, k + 1);
        assert(values.take(k + 1).drop_last() =~= values.take(k));
    } else {
        assert(values.take(k) =~= values);
    }
}

/// Every layer only makes a graph that is `ok` from one that is.
pub broadcast group group_layer_ok {
    lemma_checked_mean_ok,
    lemma_rms_norm_ok,
    lemma_gated_mlp_ok,
    lemma_heads_ok,
    lemma_projections_ok,
    lemma_attend_ok,
    lemma_rotary_attention_ok,
    lemma_params_ok,
}

pub broadcast proof fn lemma_llama_block_ok(g: Graph, x: usize, weights: Seq<Value>, p: Rotary)
    ensures
        (#[trigger] g.llama_block(x, weights, p)).0.ok ==> g.ok,
{
    broadcast use group_layer_ok;

    reveal(Graph::llama_block);
}

pub proof fn lemma_llama_blocks_ok(
    g: Graph,
    x: usize,
    weights: Seq<Seq<Value>>,
    p: Rotary,
    j: nat,
    k: nat,
)
    requires
        j <= k,
    ensures
        g.llama_blocks(x, weights, p, k).0.ok ==> g.llama_blocks(x, weights, p, j).0.ok,
    decreases k - j,
{
    if j < k {
        lemma_llama_blocks_ok(g, x, weights, p, j, (k - 1) as nat);
        let (h, y) = g.llama_blocks(x, weights, p, (k - 1) as nat);
        lemma_llama_block_ok(h, y, layer_weights(weights, k - 1), p);
    }
}

/// The model only makes a graph that is `ok` from one that is.
pub proof fn lemma_llama_ok(
    g: Graph,
    x: usize,
    weights: Seq<Seq<Value>>,
    layer_norm: Value,
    logits: Value,
    num_heads: usize,
    head_dim: usize,
    seq_len: usize,
    vocab_size: usize,
    cosines: Seq<i64>,
    sines: Seq<i64>,
    root: u32,
)
    requires
        g.llama(
            x,
            weights,
            layer_norm,
            logits,
            num_heads,
            head_dim,
            seq_len,
            vocab_size,
            cosines,
            sines,
            root,
        ).0.ok,
    ensures
        g.ok,
{
    broadcast use lemma_rms_norm_ok;

    let (d, s) = (head_dim as nat, seq_len as nat);
    let g0 = g.need(
        rotation_fits(d, s, cosines) && rotation_fits(d, s, sines) && all_have(
            weights,
            weights[0].len(),
        ),
    );
    let dims = seq![seq_len, head_dim];
    let (g1, cos) = g0.constant(dims, rotation_table(d, s, cosines, false), g.sf_log);
    let (g2, sin) = g1.constant(dims, rotation_table(d, s, sines, true), g.sf_log);
    let p = Rotary { num_heads, head_dim, seq_len, cos, sin, root };
    lemma_llama_blocks_ok(g2, x, weights, p, 0, weights[0].len());
    assert(g2.llama_blocks(x, weights, p, 0).0 == g2);
}

impl DagBuilder {
    /// The mean of a sum over `n` entries, in the given shape, checked up to rounding.
    pub(crate) fn checked_mean(&mut self, sum: EdgeId, n: usize, seq: usize) -> (r: EdgeId)
        requires
            old(self)@.checked_mean(sum, n, seq![1, seq, 1]).0.ok,
        ensures
            (final(self)@, r) == old(self)@.checked_mean(sum, n, seq![1, seq, 1]),
    {
        broadcast use group_llama_ok;

        proof {
            reveal(Graph::checked_mean);
        }
        let sf_log = self.sf_log;
        let mean = self.div_const(sum, n)[0];
        let mean = self.change_shape(mean, three_dims(1, seq, 1));
        let n_param = self.scalar(n as u32 as u64, 0);
        let tolerance = self.scalar((n / 2) as u32 as u64, sf_log);
        let product = self.einsum_str("bsi,i->bsi", two_edges(mean, n_param), false)[0];
        let sum = self.change_shape(sum, three_dims(1, seq, 1));
        let difference = self.sub(sum, product)[0];
        self.within(difference, tolerance);
        mean
    }

    /// Splits a tensor into heads.
    fn heads(&mut self, x: EdgeId, seq_len: usize, num_heads: usize, head_dim: usize) -> (r: EdgeId)
        requires
            old(self)@.heads(x, seq![1, seq_len, num_heads, head_dim]).0.ok,
        ensures
            (final(self)@, r) == old(self)@.heads(x, seq![1, seq_len, num_heads, head_dim]),
    {
        proof {
            reveal(Graph::heads);
        }
        self.reshape(x, four_dims(1, seq_len, num_heads, head_dim))[0]
    }

    /// The products of the input with the weights of queries, keys and values, split into heads.
    pub(crate) fn projections(
        &mut self,
        x: EdgeId,
        w_q: EdgeId,
        w_k: EdgeId,
        w_v: EdgeId,
        seq_len: usize,
        num_heads: usize,
        head_dim: usize,
        w_o: Ghost<EdgeId>,
    ) -> (r: (EdgeId, EdgeId, EdgeId))
        requires
            old(self)@.projections(
                x,
                (AttentionEdges { q: w_q, k: w_k, v: w_v, o: w_o@ }),
                seq![1, seq_len, num_heads, head_dim],
            ).0.ok,
        ensures
            (final(self)@, r) == old(self)@.projections(
                x,
                (AttentionEdges { q: w_q, k: w_k, v: w_v, o: w_o@ }),
                seq![1, seq_len, num_heads, head_dim],
            ),
    {
        broadcast use lemma_heads_ok;

        proof {
            reveal(Graph::projections);
        }
        let q = self.einsum_str("bsi,ij->bsj", two_edges(x, w_q), true)[0];
        let k = self.einsum_str("bsi,ij->bsj", two_edges(x, w_k), true)[0];
        let v = self.einsum_str("bsi,ij->bsj", two_edges(x, w_v), true)[0];
        let q = self.heads(q, seq_len, num_heads, head_dim);
        let k = self.heads(k, seq_len, num_heads, head_dim);
        let v = self.heads(v, seq_len, num_heads, head_dim);
        (q, k, v)
    }

    /// Attention of queries to keys and values.
    pub(crate) fn attend(
        &mut self,
        parts: (EdgeId, EdgeId, EdgeId),
        w_o: EdgeId,
        root: u32,
        seq_len: usize,
        width: usize,
    ) -> (r: Vec<EdgeId>)
        requires
            old(self)@.attend(parts, w_o, root, seq_len, width).0.ok,
        ensures
            (final(self)@, r@) == old(self)@.attend(parts, w_o, root, seq_len, width),
            r@.len() == 1,
    {
        broadcast use group_llama_ok;

        proof {
            reveal(Graph::attend);
        }
        let sf_log = self.sf_log;
        let q = self.einsum_str("bshd->bhsd", one_edge(parts.0), false)[0];
        let k = self.einsum_str("bshd->bhsd", one_edge(parts.1), false)[0];
        let v = self.einsum_str("bshd->bhsd", one_edge(parts.2), false)[0];
        let root = self.scalar(root as u64, sf_log);
        let scores = self.einsum_str("bhsd,bhtd->bhst", two_edges(q, k), true)[0];
        let scores = self.einsum_str("bhst,z->bhst", two_edges(scores, root), true)[0];
        let scores = if seq_len > 1 {
            self.causal_mask(scores, seq_len)
        } else {
            scores
        };
        // The shift makes the exponential the softmax.
        let shift = self.softmax_const(scores)[0];
        let scores = self.add(scores, shift)[0];
        let scores = self.exp(scores)[0];
        let out = self.einsum_str("bhst,bhtd->bhsd", two_edges(scores, v), true)[0];
        // The heads go next to their entries, so that the reshape joins them in this order.
        let out = self.einsum_str("bhsd->bshd", one_edge(out), false)[0];
        let out = self.reshape(out, three_dims(1, seq_len, width))[0];
        let out = self.einsum_str("bsi,ij->bsj", two_edges(out, w_o), true)[0];
        one_edge(out)
    }

    /// Some constants.
    pub(crate) fn params(&mut self, tensors: Vec<Witness>)
        requires
            old(self)@.params(tensor_values(tensors@)).ok,
        ensures
            final(self)@ == old(self)@.params(tensor_values(tensors@)),
    {
        let ghost g = self@;
        let ghost full = tensors@;
        let ghost values = tensor_values(full);
        let mut rest = tensors;
        let ghost mut k: int = 0;
        proof {
            reveal(Graph::params);
            assert(values.take(0) =~= Seq::<Value>::empty());
            assert(full.skip(0) =~= full);
        }
        while rest.len() > 0
            invariant
                0 <= k <= full.len(),
                values == tensor_values(full),
                rest@ == full.skip(k),
                self@ == g.params(values.take(k)),
                g.params(values).ok,
            decreases rest.len(),
        {
            proof {
                reveal(Graph::params);
                lemma_params_take(g, values, k + 1);
                assert(values.take(k + 1).drop_last() =~= values.take(k));
                assert(values.take(k + 1).last() == full[k]@);
            }
            let t = rest.remove(0);
            assert(t == full[k]);
            let _ = self.param(t);
            proof {
                assert(rest@ =~= full.skip(k + 1));
                k = k + 1;
            }
        }
        assert(values.take(k) =~= values);
    }
}

/// Normalises the last dimension of a tensor of shape `(1, positions, width)` by its root mean
/// square, and applies the weights.
pub(crate) fn add_rms_norm(g: &mut DagBuilder, x: EdgeId, w_e: EdgeId) -> (r: Vec<EdgeId>)
    requires
        old(g)@.rms_norm(x, w_e).0.ok,
    ensures
        (final(g)@, r@) == old(g)@.rms_norm(x, w_e),
        r@.len() == 1,
{
    broadcast use group_llama_ok;
    broadcast use lemma_checked_mean_ok;

    proof {
        reveal(Graph::rms_norm);
    }
    let shape = g.shape_of(x);
    let seq = shape[1];
    let n = shape[shape.len() - 1];
    let sf_log = g.sf_log;
    let r = g.rms_reciprocal(x)[0];
    let unit = g.unit(sf_log);
    let tolerance = g.scalar(512, sf_log);
    let squares = g.einsum_str("bsi,bsi->bsi", two_edges(x, x), true)[0];
    let sum = g.einsum_str("bsi->bs", one_edge(squares), false)[0];
    let mean = g.checked_mean(sum, n, seq);
    // The square of the reciprocal is not rescaled: it would vanish for a large mean.
    let r_square = g.einsum_str("bsi,bsi->bsi", two_edges(r, r), false)[0];
    let z = g.einsum_str("bsi,bsi->bsi", two_edges(mean, r_square), true)[0];
    let z_diff = g.sub(z, unit)[0];
    g.within(z_diff, tolerance);
    let r = g.change_shape(r, two_edges(1, seq));
    let h = g.einsum_str("bsi,bs->bsi", two_edges(x, r), true)[0];
    let out = g.einsum_str("bsi,i->bsi", two_edges(h, w_e), true)[0];
    one_edge(out)
}

/// The gated projection.
pub(crate) fn add_gated_mlp(
    g: &mut DagBuilder,
    x: EdgeId,
    w_1_e: EdgeId,
    w_2_e: EdgeId,
    w_3_e: EdgeId,
) -> (r: Vec<EdgeId>)
    requires
        old(g)@.gated_mlp(x, w_1_e, w_2_e, w_3_e).0.ok,
    ensures
        (final(g)@, r@) == old(g)@.gated_mlp(x, w_1_e, w_2_e, w_3_e),
        r@.len() == 1,
{
    proof {
        reveal(Graph::gated_mlp);
    }
    let h_1 = g.einsum_str("bsi,ij->bsj", two_edges(x, w_1_e), true)[0];
    let sigmoid = g.sigmoid(h_1)[0];
    let swish = g.einsum_str("bsi,bsi->bsi", two_edges(h_1, sigmoid), true)[0];
    let h_2 = g.einsum_str("bsi,ij->bsj", two_edges(x, w_2_e), true)[0];
    let product = g.einsum_str("bsi,bsi->bsi", two_edges(swish, h_2), true)[0];
    let out = g.einsum_str("bsi,ij->bsj", two_edges(product, w_3_e), true)[0];
    one_edge(out)
}

/// Attention with rotary position embedding. `d_sqrt_recip` is the reciprocal of the square root of
/// the width of a head, scaled and rounded.
pub(crate) fn add_rotary_attention(
    g: &mut DagBuilder,
    x: EdgeId,
    w_q_e: EdgeId,
    w_k_e: EdgeId,
    w_v_e: EdgeId,
    w_o_e: EdgeId,
    num_heads: usize,
    head_dim: usize,
    seq_len: usize,
    cos_param: EdgeId,
    sin_param: EdgeId,
    d_sqrt_recip: u32,
) -> (r: Vec<EdgeId>)
    requires
        old(g)@.rotary_attention(
            x,
            (AttentionEdges { q: w_q_e, k: w_k_e, v: w_v_e, o: w_o_e }),
            (Rotary {
                num_heads,
                head_dim,
                seq_len,
                cos: cos_param,
                sin: sin_param,
                root: d_sqrt_recip,
            }),
        ).0.ok,
    ensures
        (final(g)@, r@) == old(g)@.rotary_attention(
            x,
            (AttentionEdges { q: w_q_e, k: w_k_e, v: w_v_e, o: w_o_e }),
            (Rotary {
                num_heads,
                head_dim,
                seq_len,
                cos: cos_param,
                sin: sin_param,
                root: d_sqrt_recip,
            }),
        ),
        r@.len() == 1,
{
    broadcast use group_llama_ok;
    broadcast use lemma_projections_ok;
    broadcast use lemma_attend_ok;

    proof {
        reveal(Graph::rotary_attention);
    }
    assert(g@.need(num_heads * head_dim <= usize::MAX) == g@);
    let parts = g.projections(
        x,
        w_q_e,
        w_k_e,
        w_v_e,
        seq_len,
        num_heads,
        head_dim,
        Ghost(w_o_e),
    );
    let q = g.rope_with_vecs(parts.0, cos_param, sin_param)[0];
    let k = g.rope_with_vecs(parts.1, cos_param, sin_param)[0];
    g.attend((q, k, parts.2), w_o_e, d_sqrt_recip, seq_len, num_heads * head_dim)
}

/// A block: attention and the gated projection, each of the normalised input and each added to its
/// input.
pub(crate) fn add_llama_block(
    g: &mut DagBuilder,
    x: EdgeId,
    attn_norm_w: Witness,
    attn_q_w: Witness,
    attn_k_w: Witness,
    attn_v_w: Witness,
    attn_o_w: Witness,
    proj_norm_w: Witness,
    proj_1_w: Witness,
    proj_2_w: Witness,
    proj_3_w: Witness,
    num_heads: usize,
    head_dim: usize,
    seq_len: usize,
    cos_param: EdgeId,
    sin_param: EdgeId,
    d_sqrt_recip: u32,
) -> (r: Vec<EdgeId>)
    requires
        old(g)@.llama_block(
            x,
            seq![
                attn_norm_w@,
                attn_q_w@,
                attn_k_w@,
                attn_v_w@,
                attn_o_w@,
                proj_norm_w@,
                proj_1_w@,
                proj_2_w@,
                proj_3_w@,
            ],
            (Rotary {
                num_heads,
                head_dim,
                seq_len,
                cos: cos_param,
                sin: sin_param,
                root: d_sqrt_recip,
            }),
        ).0.ok,
    ensures
        (final(g)@, r@) == old(g)@.llama_block(
            x,
            seq![
                attn_norm_w@,
                attn_q_w@,
                attn_k_w@,
                attn_v_w@,
                attn_o_w@,
                proj_norm_w@,
                proj_1_w@,
                proj_2_w@,
                proj_3_w@,
            ],
            (Rotary {
                num_heads,
                head_dim,
                seq_len,
                cos: cos_param,
                sin: sin_param,
                root: d_sqrt_recip,
            }),
        ),
        r@.len() == 1,
{
    broadcast use group_layer_ok;

    proof {
        reveal(Graph::llama_block);
    }
    let first = g.num_edges;
    let mut tensors: Vec<Witness> = Vec::with_capacity(9);
    let ghost values = seq![
        attn_norm_w@,
        attn_q_w@,
        attn_k_w@,
        attn_v_w@,
        attn_o_w@,
        proj_norm_w@,
        proj_1_w@,
        proj_2_w@,
        proj_3_w@,
    ];
    tensors.push(attn_norm_w);
    tensors.push(attn_q_w);
    tensors.push(attn_k_w);
    tensors.push(attn_v_w);
    tensors.push(attn_o_w);
    tensors.push(proj_norm_w);
    tensors.push(proj_1_w);
    tensors.push(proj_2_w);
    tensors.push(proj_3_w);
    assert(tensor_values(tensors@) =~= values);
    let ghost before = g@;
    assert(before.params(values).ok);
    assert(first + 9 <= usize::MAX);
    g.params(tensors);
    let norm = add_rms_norm(g, x, first)[0];
    let attention = add_rotary_attention(
        g,
        norm,
        first + 1,
        first + 2,
        first + 3,
        first + 4,
        num_heads,
        head_dim,
        seq_len,
        cos_param,
        sin_param,
        d_sqrt_recip,
    )[0];
    let middle = g.add(attention, x)[0];
    let norm = add_rms_norm(g, middle, first + 5)[0];
    let projection = add_gated_mlp(g, norm, first + 6, first + 7, first + 8)[0];
    let out = g.add(projection, middle)[0];
    one_edge(out)
}

/// LLaMA: the blocks, the last normalisation and the logits. The weights of each kind come by
/// block; the cosine and the sine of pair `i` at position `m`, scaled and rounded, stand at
/// `i seq_len + m`, and `d_sqrt_recip` is the reciprocal of the square root of the width of a head,
/// scaled and rounded.
pub(crate) fn add_llama(
    g: &mut DagBuilder,
    x: EdgeId,
    attn_norm_w_vec: Vec<Witness>,
    attn_q_w_vec: Vec<Witness>,
    attn_k_w_vec: Vec<Witness>,
    attn_v_w_vec: Vec<Witness>,
    attn_o_w_vec: Vec<Witness>,
    proj_norm_w_vec: Vec<Witness>,
    proj_1_w_vec: Vec<Witness>,
    proj_2_w_vec: Vec<Witness>,
    proj_3_w_vec: Vec<Witness>,
    layer_norm_w: Witness,
    logits_w: Witness,
    num_heads: usize,
    head_dim: usize,
    seq_len: usize,
    vocab_size: usize,
    cosines: &[i64],
    sines: &[i64],
    d_sqrt_recip: u32,
) -> (r: Vec<EdgeId>)
    requires
        old(g)@.llama(
            x,
            seq![
                tensor_values(attn_norm_w_vec@),
                tensor_values(attn_q_w_vec@),
                tensor_values(attn_k_w_vec@),
                tensor_values(attn_v_w_vec@),
                tensor_values(attn_o_w_vec@),
                tensor_values(proj_norm_w_vec@),
                tensor_values(proj_1_w_vec@),
                tensor_values(proj_2_w_vec@),
                tensor_values(proj_3_w_vec@),
            ],
            layer_norm_w@,
            logits_w@,
            num_heads,
            head_dim,
            seq_len,
            vocab_size,
            cosines@,
            sines@,
            d_sqrt_recip,
        ).0.ok,
    ensures
        (final(g)@, r@) == old(g)@.llama(
            x,
            seq![
                tensor_values(attn_norm_w_vec@),
                tensor_values(attn_q_w_vec@),
                tensor_values(attn_k_w_vec@),
                tensor_values(attn_v_w_vec@),
                tensor_values(attn_o_w_vec@),
                tensor_values(proj_norm_w_vec@),
                tensor_values(proj_1_w_vec@),
                tensor_values(proj_2_w_vec@),
                tensor_values(proj_3_w_vec@),
            ],
            layer_norm_w@,
            logits_w@,
            num_heads,
            head_dim,
            seq_len,
            vocab_size,
            cosines@,
            sines@,
            d_sqrt_recip,
        ),
        r@.len() == 1,
{
    broadcast use lemma_rms_norm_ok;

    let ghost weights = seq![
        tensor_values(attn_norm_w_vec@),
        tensor_values(attn_q_w_vec@),
        tensor_values(attn_k_w_vec@),
        tensor_values(attn_v_w_vec@),
        tensor_values(attn_o_w_vec@),
        tensor_values(proj_norm_w_vec@),
        tensor_values(proj_1_w_vec@),
        tensor_values(proj_2_w_vec@),
        tensor_values(proj_3_w_vec@),
    ];
    let num_layers = attn_norm_w_vec.len();
    let sf_log = g.sf_log;
    let ghost start = g@;
    let ghost (d, s) = (head_dim as nat, seq_len as nat);
    let ghost dims = seq![seq_len, head_dim];
    let ghost (g1, cos_edge) = start.need(
        rotation_fits(d, s, cosines@) && rotation_fits(d, s, sines@) && all_have(
            weights,
            weights[0].len(),
        ),
    ).constant(dims, rotation_table(d, s, cosines@, false), sf_log);
    let ghost (g2, sin_edge) = g1.constant(
        dims,
        rotation_table(d, s, sines@, true),
        sf_log,
    );
    let ghost p = Rotary {
        num_heads,
        head_dim,
        seq_len,
        cos: cos_edge,
        sin: sin_edge,
        root: d_sqrt_recip,
    };
    proof {
        lemma_llama_blocks_ok(g2, x, weights, p, 0, weights[0].len());
        lemma_small_shape(dims);
        assert(weights[0].len() == num_layers);
        assert(g2.llama_blocks(x, weights, p, 0) == (g2, x));
    }
    let cos_data = rope_cos_mat(head_dim, seq_len, cosines);
    let cos_param = g.constant(two_edges(seq_len, head_dim), cos_data, sf_log);
    let sin_data = rope_sin_mat(head_dim, seq_len, sines);
    let sin_param = g.constant(two_edges(seq_len, head_dim), sin_data, sf_log);
    assert(g@ == g2);
    let mut y = x;
    let mut i: usize = 0;
    while i < num_layers
        invariant
            i <= num_layers,
            num_layers == attn_norm_w_vec@.len(),
            weights == seq![
                tensor_values(attn_norm_w_vec@),
                tensor_values(attn_q_w_vec@),
                tensor_values(attn_k_w_vec@),
                tensor_values(attn_v_w_vec@),
                tensor_values(attn_o_w_vec@),
                tensor_values(proj_norm_w_vec@),
                tensor_values(proj_1_w_vec@),
                tensor_values(proj_2_w_vec@),
                tensor_values(proj_3_w_vec@),
            ],
            all_have(weights, num_layers as nat),
            p == (Rotary {
                num_heads,
                head_dim,
                seq_len,
                cos: cos_param,
                sin: sin_param,
                root: d_sqrt_recip,
            }),
            (g@, y) == g2.llama_blocks(x, weights, p, i as nat),
            g2.llama_blocks(x, weights, p, num_layers as nat).0.ok,
        decreases num_layers - i,
    {
        proof {
            lemma_llama_blocks_ok(g2, x, weights, p, (i + 1) as nat, num_layers as nat);
            assert(weights[1].len() >= num_layers);
            assert(weights[2].len() >= num_layers);
            assert(weights[3].len() >= num_layers);
            assert(weights[4].len() >= num_layers);
            assert(weights[5].len() >= num_layers);
            assert(weights[6].len() >= num_layers);
            assert(weights[7].len() >= num_layers);
            assert(weights[8].len() >= num_layers);
            assert(layer_weights(weights, i as int) =~= seq![
                attn_norm_w_vec@[i as int]@,
                attn_q_w_vec@[i as int]@,
                attn_k_w_vec@[i as int]@,
                attn_v_w_vec@[i as int]@,
                attn_o_w_vec@[i as int]@,
                proj_norm_w_vec@[i as int]@,
                proj_1_w_vec@[i as int]@,
                proj_2_w_vec@[i as int]@,
                proj_3_w_vec@[i as int]@,
            ]);
        }
        let out = add_llama_block(
            g,
            y,
            attn_norm_w_vec[i].clone(),
            attn_q_w_vec[i].clone(),
            attn_k_w_vec[i].clone(),
            attn_v_w_vec[i].clone(),
            attn_o_w_vec[i].clone(),
            proj_norm_w_vec[i].clone(),
            proj_1_w_vec[i].clone(),
            proj_2_w_vec[i].clone(),
            proj_3_w_vec[i].clone(),
            num_heads,
            head_dim,
            seq_len,
            cos_param,
            sin_param,
            d_sqrt_recip,
        );
        y = out[0];
        i += 1;
    }
    let w = g.param(layer_norm_w);
    let norm = add_rms_norm(g, y, w)[0];
    let w = g.param(logits_w);
    let out = g.einsum_str("bij,jk->ik", two_edges(norm, w), true)[0];
    let out = g.change_shape(out, two_edges(seq_len, vocab_size));
    one_edge(out)
}

/// The layer that normalises the last dimension of a tensor of shape `(1, positions, width)` by its
/// root mean square, and applies the weights.
pub fn llama_rms_norm(w_e: EdgeId) -> (f: impl FnOnce(&mut DagBuilder, &[EdgeId]) -> Vec<EdgeId>)
    ensures
        forall|g: &mut DagBuilder, x: &[EdgeId]|
            x@.len() == 1 && (*g)@.rms_norm(
                x@[0],
                w_e,
            ).0.ok ==> #[trigger] call_requires(f, (g, x)),
        forall|g: &mut DagBuilder, x: &[EdgeId], r: Vec<EdgeId>| #[trigger]
            call_ensures(f, (g, x), r) ==> ((*final(g))@, r@) == (*g)@.rms_norm(x@[0], w_e),
{
    move |g: &mut DagBuilder, x: &[EdgeId]| -> (r: Vec<EdgeId>)
        requires
            x@.len() == 1,
            old(g)@.rms_norm(x@[0], w_e).0.ok,
        ensures
            (final(g)@, r@) == old(g)@.rms_norm(x@[0], w_e),
        { add_rms_norm(g, x[0], w_e) }
}

/// The layer of the gated projection.
pub fn llama_mlp(
    w_1_e: EdgeId,
    w_2_e: EdgeId,
    w_3_e: EdgeId,
) -> (f: impl FnOnce(&mut DagBuilder, &[EdgeId]) -> Vec<EdgeId>)
    ensures
        forall|g: &mut DagBuilder, x: &[EdgeId]|
            x@.len() == 1 && (*g)@.gated_mlp(
                x@[0],
                w_1_e,
                w_2_e,
                w_3_e,
            ).0.ok ==> #[trigger] call_requires(f, (g, x)),
        forall|g: &mut DagBuilder, x: &[EdgeId], r: Vec<EdgeId>| #[trigger]
            call_ensures(f, (g, x), r) ==> ((*final(g))@, r@) == (*g)@.gated_mlp(
                x@[0],
                w_1_e,
                w_2_e,
                w_3_e,
            ),
{
    move |g: &mut DagBuilder, x: &[EdgeId]| -> (r: Vec<EdgeId>)
        requires
            x@.len() == 1,
            old(g)@.gated_mlp(x@[0], w_1_e, w_2_e, w_3_e).0.ok,
        ensures
            (final(g)@, r@) == old(g)@.gated_mlp(x@[0], w_1_e, w_2_e, w_3_e),
        { add_gated_mlp(g, x[0], w_1_e, w_2_e, w_3_e) }
}

/// The layer of attention with rotary position embedding. `d_sqrt_recip` is the reciprocal of the
/// square root of the width of a head, scaled and rounded.
pub fn llama_attention(
    w_q_e: EdgeId,
    w_k_e: EdgeId,
    w_v_e: EdgeId,
    w_o_e: EdgeId,
    num_heads: usize,
    head_dim: usize,
    seq_len: usize,
    cos_param: EdgeId,
    sin_param: EdgeId,
    d_sqrt_recip: u32,
) -> (f: impl FnOnce(&mut DagBuilder, &[EdgeId]) -> Vec<EdgeId>)
    ensures
        forall|g: &mut DagBuilder, x: &[EdgeId]|
            x@.len() == 1 && (*g)@.rotary_attention(
                x@[0],
                (AttentionEdges { q: w_q_e, k: w_k_e, v: w_v_e, o: w_o_e }),
                (Rotary {
                    num_heads,
                    head_dim,
                    seq_len,
                    cos: cos_param,
                    sin: sin_param,
                    root: d_sqrt_recip,
                }),
            ).0.ok ==> #[trigger] call_requires(f, (g, x)),
        forall|g: &mut DagBuilder, x: &[EdgeId], r: Vec<EdgeId>| #[trigger]
            call_ensures(f, (g, x), r) ==> ((*final(g))@, r@) == (*g)@.rotary_attention(
                x@[0],
                (AttentionEdges { q: w_q_e, k: w_k_e, v: w_v_e, o: w_o_e }),
                (Rotary {
                    num_heads,
                    head_dim,
                    seq_len,
                    cos: cos_param,
                    sin: sin_param,
                    root: d_sqrt_recip,
                }),
            ),
{
    move |g: &mut DagBuilder, x: &[EdgeId]| -> (r: Vec<EdgeId>)
        requires
            x@.len() == 1,
            old(g)@.rotary_attention(
                x@[0],
                (AttentionEdges { q: w_q_e, k: w_k_e, v: w_v_e, o: w_o_e }),
                (Rotary {
                    num_heads,
                    head_dim,
                    seq_len,
                    cos: cos_param,
                    sin: sin_param,
                    root: d_sqrt_recip,
                }),
            ).0.ok,
        ensures
            (final(g)@, r@) == old(g)@.rotary_attention(
                x@[0],
                (AttentionEdges { q: w_q_e, k: w_k_e, v: w_v_e, o: w_o_e }),
                (Rotary {
                    num_heads,
                    head_dim,
                    seq_len,
                    cos: cos_param,
                    sin: sin_param,
                    root: d_sqrt_recip,
                }),
            ),
        { 
            add_rotary_attention(
                g,
                x[0],
                w_q_e,
                w_k_e,
                w_v_e,
                w_o_e,
                num_heads,
                head_dim,
                seq_len,
                cos_param,
                sin_param,
                d_sqrt_recip,
            )
         }
}

/// The layer of a block: attention and the gated projection, each of the normalised input and each
/// added to its input.
pub fn llama_block(
    attn_norm_w: Witness,
    attn_q_w: Witness,
    attn_k_w: Witness,
    attn_v_w: Witness,
    attn_o_w: Witness,
    proj_norm_w: Witness,
    proj_1_w: Witness,
    proj_2_w: Witness,
    proj_3_w: Witness,
    num_heads: usize,
    head_dim: usize,
    seq_len: usize,
    cos_param: EdgeId,
    sin_param: EdgeId,
    d_sqrt_recip: u32,
) -> (f: impl FnOnce(&mut DagBuilder, &[EdgeId]) -> Vec<EdgeId>)
    ensures
        forall|g: &mut DagBuilder, x: &[EdgeId]|
            x@.len() == 1 && (*g)@.llama_block(
                x@[0],
                seq![
                    attn_norm_w@,
                    attn_q_w@,
                    attn_k_w@,
                    attn_v_w@,
                    attn_o_w@,
                    proj_norm_w@,
                    proj_1_w@,
                    proj_2_w@,
                    proj_3_w@,
                ],
                (Rotary {
                    num_heads,
                    head_dim,
                    seq_len,
                    cos: cos_param,
                    sin: sin_param,
                    root: d_sqrt_recip,
                }),
            ).0.ok ==> #[trigger] call_requires(f, (g, x)),
        forall|g: &mut DagBuilder, x: &[EdgeId], r: Vec<EdgeId>| #[trigger]
            call_ensures(f, (g, x), r) ==> ((*final(g))@, r@) == (*g)@.llama_block(
                x@[0],
                seq![
                    attn_norm_w@,
                    attn_q_w@,
                    attn_k_w@,
                    attn_v_w@,
                    attn_o_w@,
                    proj_norm_w@,
                    proj_1_w@,
                    proj_2_w@,
                    proj_3_w@,
                ],
                (Rotary {
                    num_heads,
                    head_dim,
                    seq_len,
                    cos: cos_param,
                    sin: sin_param,
                    root: d_sqrt_recip,
                }),
            ),
{
    move |g: &mut DagBuilder, x: &[EdgeId]| -> (r: Vec<EdgeId>)
        requires
            x@.len() == 1,
            old(g)@.llama_block(
                x@[0],
                seq![
                    attn_norm_w@,
                    attn_q_w@,
                    attn_k_w@,
                    attn_v_w@,
                    attn_o_w@,
                    proj_norm_w@,
                    proj_1_w@,
                    proj_2_w@,
                    proj_3_w@,
                ],
                (Rotary {
                    num_heads,
                    head_dim,
                    seq_len,
                    cos: cos_param,
                    sin: sin_param,
                    root: d_sqrt_recip,
                }),
            ).0.ok,
        ensures
            (final(g)@, r@) == old(g)@.llama_block(
                x@[0],
                seq![
                    attn_norm_w@,
                    attn_q_w@,
                    attn_k_w@,
                    attn_v_w@,
                    attn_o_w@,
                    proj_norm_w@,
                    proj_1_w@,
                    proj_2_w@,
                    proj_3_w@,
                ],
                (Rotary {
                    num_heads,
                    head_dim,
                    seq_len,
                    cos: cos_param,
                    sin: sin_param,
                    root: d_sqrt_recip,
                }),
            ),
        { 
            add_llama_block(
                g,
                x[0],
                attn_norm_w,
                attn_q_w,
                attn_k_w,
                attn_v_w,
                attn_o_w,
                proj_norm_w,
                proj_1_w,
                proj_2_w,
                proj_3_w,
                num_heads,
                head_dim,
                seq_len,
                cos_param,
                sin_param,
                d_sqrt_recip,
            )
         }
}

/// LLaMA as a layer: the blocks, the last normalisation and the logits. The weights of each kind come
/// by block; the cosine and the sine of pair `i` at position `m`, scaled and rounded, stand at
/// `i seq_len + m`, and `d_sqrt_recip` is the reciprocal of the square root of the width of a head,
/// scaled and rounded.
pub fn llama_2_7b(
    attn_norm_w_vec: Vec<Witness>,
    attn_q_w_vec: Vec<Witness>,
    attn_k_w_vec: Vec<Witness>,
    attn_v_w_vec: Vec<Witness>,
    attn_o_w_vec: Vec<Witness>,
    proj_norm_w_vec: Vec<Witness>,
    proj_1_w_vec: Vec<Witness>,
    proj_2_w_vec: Vec<Witness>,
    proj_3_w_vec: Vec<Witness>,
    layer_norm_w: Witness,
    logits_w: Witness,
    num_heads: usize,
    head_dim: usize,
    seq_len: usize,
    vocab_size: usize,
    cosines: Vec<i64>,
    sines: Vec<i64>,
    d_sqrt_recip: u32,
) -> (f: impl FnOnce(&mut DagBuilder, &[EdgeId]) -> Vec<EdgeId>)
    ensures
        forall|g: &mut DagBuilder, x: &[EdgeId]|
            x@.len() == 1 && (*g)@.llama(
                x@[0],
                seq![
                    tensor_values(attn_norm_w_vec@),
                    tensor_values(attn_q_w_vec@),
                    tensor_values(attn_k_w_vec@),
                    tensor_values(attn_v_w_vec@),
                    tensor_values(attn_o_w_vec@),
                    tensor_values(proj_norm_w_vec@),
                    tensor_values(proj_1_w_vec@),
                    tensor_values(proj_2_w_vec@),
                    tensor_values(proj_3_w_vec@),
                ],
                layer_norm_w@,
                logits_w@,
                num_heads,
                head_dim,
                seq_len,
                vocab_size,
                cosines@,
                sines@,
                d_sqrt_recip,
            ).0.ok ==> #[trigger] call_requires(f, (g, x)),
        forall|g: &mut DagBuilder, x: &[EdgeId], r: Vec<EdgeId>| #[trigger]
            call_ensures(f, (g, x), r) ==> ((*final(g))@, r@) == (*g)@.llama(
                x@[0],
                seq![
                    tensor_values(attn_norm_w_vec@),
                    tensor_values(attn_q_w_vec@),
                    tensor_values(attn_k_w_vec@),
                    tensor_values(attn_v_w_vec@),
                    tensor_values(attn_o_w_vec@),
                    tensor_values(proj_norm_w_vec@),
                    tensor_values(proj_1_w_vec@),
                    tensor_values(proj_2_w_vec@),
                    tensor_values(proj_3_w_vec@),
                ],
                layer_norm_w@,
                logits_w@,
                num_heads,
                head_dim,
                seq_len,
                vocab_size,
                cosines@,
                sines@,
                d_sqrt_recip,
            ),
{
    move |g: &mut DagBuilder, x: &[EdgeId]| -> (r: Vec<EdgeId>)
        requires
            x@.len() == 1,
            old(g)@.llama(
                x@[0],
                seq![
                    tensor_values(attn_norm_w_vec@),
                    tensor_values(attn_q_w_vec@),
                    tensor_values(attn_k_w_vec@),
                    tensor_values(attn_v_w_vec@),
                    tensor_values(attn_o_w_vec@),
                    tensor_values(proj_norm_w_vec@),
                    tensor_values(proj_1_w_vec@),
                    tensor_values(proj_2_w_vec@),
                    tensor_values(proj_3_w_vec@),
                ],
                layer_norm_w@,
                logits_w@,
                num_heads,
                head_dim,
                seq_len,
                vocab_size,
                cosines@,
                sines@,
                d_sqrt_recip,
            ).0.ok,
        ensures
            (final(g)@, r@) == old(g)@.llama(
                x@[0],
                seq![
                    tensor_values(attn_norm_w_vec@),
                    tensor_values(attn_q_w_vec@),
                    tensor_values(attn_k_w_vec@),
                    tensor_values(attn_v_w_vec@),
                    tensor_values(attn_o_w_vec@),
                    tensor_values(proj_norm_w_vec@),
                    tensor_values(proj_1_w_vec@),
                    tensor_values(proj_2_w_vec@),
                    tensor_values(proj_3_w_vec@),
                ],
                layer_norm_w@,
                logits_w@,
                num_heads,
                head_dim,
                seq_len,
                vocab_size,
                cosines@,
                sines@,
                d_sqrt_recip,
            ),
        { 
            add_llama(
                g,
                x[0],
                attn_norm_w_vec,
                attn_q_w_vec,
                attn_k_w_vec,
                attn_v_w_vec,
                attn_o_w_vec,
                proj_norm_w_vec,
                proj_1_w_vec,
                proj_2_w_vec,
                proj_3_w_vec,
                layer_norm_w,
                logits_w,
                num_heads,
                head_dim,
                seq_len,
                vocab_size,
                cosines.as_slice(),
                sines.as_slice(),
                d_sqrt_recip,
            )
         }
}

/// A shape of few dimensions takes few index bits.
pub proof fn lemma_small_shape(shape: Seq<usize>)
    requires
        shape.len() <= 2,
    ensures
        num_vars(shape) <= 128,
    decreases shape.len(),
{
    if shape.len() > 0 {
        let d = shape.last() as int;
        crate::arith::lemma_ceil_log(d);
        let l = ceil_log(d);
        assert(l <= 64) by {
            if l > 64 {
                vstd::arithmetic::power2::lemma2_to64();
                crate::math::lemma_pow2_mono(64, (l - 1) as nat);
            }
        }
        lemma_small_shape(shape.drop_last());
        if shape.len() == 1 {
            assert(num_vars(shape.drop_last()) == 0);
        } else {
            let e = shape.drop_last();
            let f = e.last() as int;
            crate::arith::lemma_ceil_log(f);
            let m = ceil_log(f);
            assert(m <= 64) by {
                if m > 64 {
                    vstd::arithmetic::power2::lemma2_to64();
                    crate::math::lemma_pow2_mono(64, (m - 1) as nat);
                }
            }
            assert(num_vars(e.drop_last()) == 0);
        }
    }
}

} // verus!
