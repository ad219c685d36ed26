//! Token embeddings, the logits and the check of their arguments of the maximum.
use crate::arith::{ceil_log, lemma_few_dims, log2_ceil};
use crate::dag::builder::{two_edges, DagBuilder};
use crate::dag::graph::Graph;
use crate::dag::EdgeId;
use crate::field::{vals, CryptoField, Fr};
use crate::math::{lemma_div_mod_unique, lemma_pow2_mono, lemma_sum_single, sum_to, two_to};
use crate::witness::{dense_value, DataType, Role, Value, Witness};
use vstd::arithmetic::power2::pow2;
use vstd::prelude::*;

verus! {

broadcast use crate::dag::graph::group_ok;

/// The entry at `p` of the first `k` rows of a selector.
pub open spec fn selected_entry(padded: int, indices: Seq<usize>, k: int, p: int) -> int {
    if p % padded < k && p / padded == indices[p % padded] {
        1
    } else {
        0
    }
}

/// The table of the rows of a selector: row `i` is one at `indices[i]` and zero elsewhere. Entry
/// `(i, v)` stands at `i + v padded`, where `padded` is the number of rows padded to a power of two.
pub open spec fn one_hot_table(len: nat, table_size: nat, indices: Seq<usize>) -> Seq<int> {
    let padded = pow2(ceil_log(len as int)) as int;
    Seq::new(
        pow2(ceil_log(len as int)) * pow2(ceil_log(table_size as int)),
        |p: int| selected_entry(padded, indices, len as int, p),
    )
}

/// The indices can be selected.
pub open spec fn selectable(len: nat, table_size: nat, indices: Seq<usize>) -> bool {
    &&& indices.len() == len
    &&& forall|i: int| 0 <= i < len ==> #[trigger] indices[i] < table_size
    &&& ceil_log(len as int) + ceil_log(table_size as int) < usize::BITS
}

/// The selector as a tensor.
pub open spec fn one_hot_value(len: usize, table_size: usize, indices: Seq<usize>) -> Value {
    dense_value(
        seq![len, table_size],
        one_hot_table(len as nat, table_size as nat, indices),
        DataType::Float,
        0,
        Role::Constant,
    )
}

/// A row of a selector picks the entry at its index out of any column.
pub proof fn lemma_one_hot_picks(
    len: nat,
    table_size: nat,
    indices: Seq<usize>,
    i: int,
    column: spec_fn(int) -> int,
)
    requires
        indices.len() == len,
        0 <= i < len,
        indices[i] < table_size,
    ensures
        sum_to(
            |v: int|
                one_hot_table(len, table_size, indices)[i + v * pow2(ceil_log(len as int))]
                    * column(v),
            pow2(ceil_log(table_size as int)) as int,
        ) == column(indices[i] as int),
{
    let table = one_hot_table(len, table_size, indices);
    let padded = pow2(ceil_log(len as int)) as int;
    let size = pow2(ceil_log(table_size as int)) as int;
    let k = indices[i] as int;
    let f = |v: int| table[i + v * pow2(ceil_log(len as int))] * column(v);
    crate::arith::lemma_ceil_log(len as int);
    crate::arith::lemma_ceil_log(table_size as int);
    assert forall|v: int| 0 <= v < size implies #[trigger] f(v) == (if v == k {
        column(v)
    } else {
        0
    }) by {
        let p = i + v * padded;
        assert(0 <= p < padded * size) by (nonlinear_arith)
            requires
                0 <= i < padded,
                0 <= v,
                v + 1 <= size,
                p == i + v * padded,
        ;
        lemma_div_mod_unique(p, padded, v, i);
        assert(table[p] == if v == k {
            1int
        } else {
            0int
        });
        assert(1 * column(v) == column(v) && 0 * column(v) == 0) by (nonlinear_arith);
    }
    lemma_sum_single(f, k, size);
}

/// Where the entry that a row of a selector picks is not below any entry of the column, the index of
/// the row is an argument of the maximum.
pub proof fn lemma_argmax(
    len: nat,
    table_size: nat,
    indices: Seq<usize>,
    i: int,
    logits: spec_fn(int) -> int,
)
    requires
        indices.len() == len,
        0 <= i < len,
        indices[i] < table_size,
        forall|v: int|
            0 <= v < table_size ==> sum_to(
                |u: int|
                    one_hot_table(len, table_size, indices)[i + u * pow2(ceil_log(len as int))]
                        * logits(u),
                pow2(ceil_log(table_size as int)) as int,
            ) - #[trigger] logits(v) >= 0,
    ensures
        forall|v: int| 0 <= v < table_size ==> #[trigger] logits(v) <= logits(indices[i] as int),
{
    lemma_one_hot_picks(len, table_size, indices, i, logits);
}

impl Graph {
    /// The rows of the embedding matrix for some tokens, and the edge of their selector.
    pub open spec fn embedding_lookup(
        self,
        w_e: usize,
        seq_len: usize,
        vocab_size: usize,
        token_ids: Seq<usize>,
    ) -> (Graph, (usize, usize)) {
        let g = self.need(selectable(seq_len as nat, vocab_size as nat, token_ids));
        let (g, s) = g.param(one_hot_value(seq_len, vocab_size, token_ids));
        let (g, h) = g.einsum("sv,vd->sd"@, seq![s, w_e], false);
        (g, (h[0], s))
    }

    pub open spec fn add_positional_encoding(self, h: usize, pos: Value) -> (Graph, usize) {
        let (g, p) = self.param(pos);
        let (g, out) = g.plus(h, p);
        (g, out[0])
    }

    /// The logits, by the product with the transposed weights of the embedding.
    pub open spec fn lm_head_weight_tied(
        self,
        hidden: usize,
        w_e: usize,
        seq_len: usize,
        vocab_size: usize,
    ) -> (Graph, usize) {
        let (g, logits) = self.einsum("bsd,vd->bsv"@, seq![hidden, w_e], true);
        g.change_shape(logits[0], seq![seq_len, vocab_size])
    }

    /// Checks that the logits of the given tokens are not below any other of their row; the edge is
    /// that of the selector.
    pub open spec fn argmax_check(
        self,
        logits: usize,
        seq_len: usize,
        vocab_size: usize,
        token_ids: Seq<usize>,
    ) -> (Graph, usize) {
        let g = self.need(selectable(seq_len as nat, vocab_size as nat, token_ids));
        let (g, s) = g.param(one_hot_value(seq_len, vocab_size, token_ids));
        let (g, selected) = g.einsum("sv,sv->s"@, seq![logits, s], false);
        let (g, column) = g.change_shape(selected[0], seq![seq_len, 1]);
        let (g, diffs) = g.minus(column, logits);
        (g.nonneg(diffs[0]), s)
    }
}

impl DagBuilder {
    /// The selector of some rows of a table.
    fn build_one_hot_selector(len: usize, table_size: usize, indices: &[usize]) -> (r: Witness)
        requires
            selectable(len as nat, table_size as nat, indices@),
        ensures
            r@ == one_hot_value(len, table_size, indices@),
    {
        let len_log = log2_ceil(len);
        let table_log = log2_ceil(table_size);
        proof {
            lemma_pow2_mono(len_log as nat, (len_log + table_log) as nat);
            vstd::arithmetic::power2::lemma_pow2_adds(len_log as nat, table_log as nat);
            crate::arith::lemma_ceil_log(len as int);
            crate::arith::lemma_ceil_log(table_size as int);
            lemma_few_dims(len, table_size, 1);
        }
        let len_pad = two_to(len_log);
        let total = two_to(len_log + table_log);
        let ghost tall = pow2(table_log as nat) as int;
        let mut data = Fr::repeat(Fr::zero(), total);
        let one = Fr::one();
        let mut i: usize = 0;
        while i < len
            invariant
                i <= len,
                len <= len_pad,
                len_pad > 0,
                len_pad == pow2(ceil_log(len as int)),
                tall == pow2(ceil_log(table_size as int)),
                table_size <= tall,
                total == len_pad * tall,
                data@.len() == total,
                one@ == 1,
                selectable(len as nat, table_size as nat, indices@),
                forall|p: int|
                    0 <= p < total ==> (#[trigger] data@[p])@ == selected_entry(
                        len_pad as int,
                        indices@,
                        i as int,
                        p,
                    ),
            decreases len - i,
        {
            let idx = indices[i];
            proof {
                let (a, k, l) = (i as int, idx as int, len_pad as int);
                assert(indices@[i as int] < table_size);
                assert(a + k * l < l * tall && k * l >= 0) by (nonlinear_arith)
                    requires
                        0 <= a < l,
                        0 <= k,
                        k + 1 <= tall,
                ;
            }
            let ghost before = data@;
            let place = i + idx * len_pad;
            data.set(place, one);
            proof {
                let l = len_pad as int;
                assert forall|p: int| 0 <= p < total implies (#[trigger] data@[p])@
                    == selected_entry(l, indices@, i + 1, p) by {
                    assert(before[p]@ == selected_entry(l, indices@, i as int, p));
                    lemma_div_mod_unique(place as int, l, idx as int, i as int);
                    if p % l == i && p / l == idx {
                        vstd::arithmetic::div_mod::lemma_fundamental_div_mod(p, l);
                        assert(l * (p / l) == idx * l) by (nonlinear_arith)
                            requires
                                p / l == idx,
                        ;
                        assert(p == place);
                    }
                }
            }
            i += 1;
        }
        assert(vals(data@) =~= one_hot_table(len as nat, table_size as nat, indices@));
        Witness::new(two_edges(len, table_size), data, DataType::Float, 0, Role::Constant)
    }

    /// The selector of some rows of a table.
    pub fn build_one_hot_selector_pub(len: usize, table_size: usize, indices: &[usize]) -> (r:
        Witness)
        requires
            selectable(len as nat, table_size as nat, indices@),
        ensures
            r@ == one_hot_value(len, table_size, indices@),
    {
        Self::build_one_hot_selector(len, table_size, indices)
    }

    /// The rows of the embedding matrix for some tokens, and the edge of their selector, so that it
    /// can be replaced.
    pub fn embedding_lookup(
        &mut self,
        w_e: EdgeId,
        seq_len: usize,
        vocab_size: usize,
        token_ids: &[usize],
    ) -> (r: (EdgeId, EdgeId))
        requires
            old(self)@.embedding_lookup(w_e, seq_len, vocab_size, token_ids@).0.ok,
        ensures
            (final(self)@, r) == old(self)@.embedding_lookup(
                w_e,
                seq_len,
                vocab_size,
                token_ids@,
            ),
    {
        let s = Self::build_one_hot_selector(seq_len, vocab_size, token_ids);
        let s_id = self.param(s);
        // The selector has no fractional bits: there is nothing to scale back.
        let h0 = self.einsum_str("sv,vd->sd", two_edges(s_id, w_e), false)[0];
        (h0, s_id)
    }

    /// Adds position embeddings.
    pub fn add_positional_encoding(&mut self, h0: EdgeId, pos_embed: Witness) -> (r: EdgeId)
        requires
            old(self)@.add_positional_encoding(h0, pos_embed@).0.ok,
        ensures
            (final(self)@, r) == old(self)@.add_positional_encoding(h0, pos_embed@),
    {
        let p = self.param(pos_embed);
        self.add(h0, p)[0]
    }

    /// The logits, of shape `(positions, tokens)`, by the product with the transposed weights of the
    /// embedding.
    pub fn lm_head_weight_tied(
        &mut self,
        hidden: EdgeId,
        w_e: EdgeId,
        seq_len: usize,
        vocab_size: usize,
    ) -> (r: EdgeId)
        requires
            old(self)@.lm_head_weight_tied(hidden, w_e, seq_len, vocab_size).0.ok,
        ensures
            (final(self)@, r) == old(self)@.lm_head_weight_tied(
                hidden,
                w_e,
                seq_len,
                vocab_size,
            ),
    {
        let logits = self.einsum_str("bsd,vd->bsv", two_edges(hidden, w_e), true)[0];
        self.change_shape(logits, two_edges(seq_len, vocab_size))
    }

    /// Checks that the given tokens are arguments of the maximum of the logits, row by row: the
    /// differences of their logits to all logits of the row are checked not to be negative. The edge
    /// is that of the selector, so that it can be replaced.
    pub fn argmax_check(
        &mut self,
        logits: EdgeId,
        seq_len: usize,
        vocab_size: usize,
        token_ids: &[usize],
    ) -> (r: EdgeId)
        requires
            old(self)@.argmax_check(logits, seq_len, vocab_size, token_ids@).0.ok,
        ensures
            (final(self)@, r) == old(self)@.argmax_check(
                logits,
                seq_len,
                vocab_size,
                token_ids@,
            ),
    {
        let s = Self::build_one_hot_selector(seq_len, vocab_size, token_ids);
        let s_id = self.param(s);
        let selected = self.einsum_str("sv,sv->s", two_edges(logits, s_id), false)[0];
        let column = self.change_shape(selected, two_edges(seq_len, 1));
        let diffs = self.sub(column, logits)[0];
        self.add_nonneg_node(diffs);
        s_id
    }
}

} // verus!
