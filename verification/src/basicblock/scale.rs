//! Changing the number of fractional bits of a tensor.
use crate::arith::{f_to_int, is_small, num_vars, power_of_two, signed};
use crate::basicblock::{
    can_claim_input, claim_input, entries_below, entry_selection, input_claimed, one_input,
    selection_witness, selects, BasicBlock,
};
use crate::field::{modulus, vals, CryptoField, Fr};
use crate::math::{lemma_div_mod, two_to};
use crate::sumcheck::prover::SumcheckProof;
use crate::transcript::Transcript;
use crate::witness::{copy_words, dense_value, Claim, Role, Witness};
use vstd::arithmetic::power2::pow2;
use vstd::prelude::*;

verus! {

/// Fewer fractional bits, rounding to the nearest: `floor((x + 2^(k-1)) / 2^k)` for `k` bits less.
#[derive(Clone, Copy, Debug)]
pub struct ScaleDown {
    pub input_sf: usize,
    pub output_sf: usize,
}

/// More fractional bits: `x * 2^k` for `k` bits more. Nothing is left over, and the selection holds
/// the middle of its table.
#[derive(Clone, Copy, Debug)]
pub struct ScaleUp {
    pub input_sf: usize,
    pub output_sf: usize,
}

/// `x / factor` rounded to the nearest integer, up where two are equally near.
pub open spec fn scaled_down(x: int, factor: int) -> int {
    (x + factor / 2) / factor
}

/// What rounding leaves, moved into `0..factor`.
pub open spec fn rounding_rest(x: int, factor: int) -> int {
    (x + factor / 2) % factor
}

/// The rounded value and the rest give the value back, and the rest is in range.
pub proof fn lemma_scaled_down(x: int, factor: int)
    requires
        factor > 0,
    ensures
        x == scaled_down(x, factor) * factor + rounding_rest(x, factor) - factor / 2,
        0 <= rounding_rest(x, factor) < factor,
{
    lemma_div_mod(x + factor / 2, factor);
}

impl BasicBlock for ScaleDown {
    open spec fn can_run(&self, inputs: Seq<&Witness>, advice: Seq<i128>) -> bool {
        &&& one_input(inputs)
        &&& self.input_sf >= self.output_sf
        &&& self.input_sf - self.output_sf < 64
        &&& self.input_sf - self.output_sf < usize::BITS
        &&& num_vars(inputs[0].shape@) + (self.input_sf - self.output_sf) <= usize::BITS
        &&& entries_below(inputs[0].values(), 0x4000_0000_0000_0000_0000_0000_0000_0000)
    }

    open spec fn ran(
        &self,
        inputs: Seq<&Witness>,
        advice: Seq<i128>,
        outputs: Seq<Witness>,
    ) -> bool {
        let x = inputs[0];
        let n = num_vars(x.shape@);
        let k = (self.input_sf - self.output_sf) as nat;
        let factor = pow2(k) as int;
        &&& outputs.len() == 2
        &&& outputs[0]@ == dense_value(
            x.shape@,
            x.values().map_values(|v: int| scaled_down(signed(v), factor) % modulus()),
            x.data_type,
            self.output_sf,
            Role::Output,
        )
        &&& selects(
            outputs[1],
            x.shape@,
            n,
            k,
            entry_selection(n, |p: int| rounding_rest(signed(x.values()[p]), factor)),
            x.data_type,
        )
    }

    fn run(&self, inputs: &[&Witness], advice: &[i128]) -> (r: Vec<Witness>) {
        let x = inputs[0];
        let poly = x.data.as_ref().unwrap();
        let num_var = crate::arith::get_n(x.shape.as_slice());
        let n = two_to(num_var);
        let rescale_sf = self.input_sf - self.output_sf;
        let factor = power_of_two(rescale_sf) as i128;
        let half = factor / 2;
        let ghost f = factor as int;
        let ghost goal = x.values().map_values(|v: int| scaled_down(signed(v), f) % modulus());
        let ghost position = |p: int| rounding_rest(signed(x.values()[p]), f);
        let ghost pairs = entry_selection(num_var as nat, position);
        let mut y_data: Vec<Fr> = Vec::with_capacity(n);
        let mut selection: Vec<(usize, usize)> = Vec::with_capacity(n);
        let mut i: usize = 0;
        proof {
            vstd::bits::lemma_usize_pow2_no_overflow(rescale_sf as nat);
        }
        while i < n
            invariant
                i <= n,
                self.can_run(inputs@, advice@),
                x == inputs@[0],
                *poly == x.data->0,
                num_var == num_vars(x.shape@),
                n == pow2(num_var as nat),
                n == poly.values().len(),
                rescale_sf == self.input_sf - self.output_sf,
                f == factor,
                f == pow2(rescale_sf as nat),
                f <= usize::MAX,
                0 < factor < 0x1_0000_0000_0000_0000,
                half == factor / 2,
                goal == x.values().map_values(|v: int| scaled_down(signed(v), f) % modulus()),
                position == (|p: int| rounding_rest(signed(x.values()[p]), f)),
                pairs == entry_selection(num_var as nat, position),
                y_data@.len() == i,
                forall|j: int| 0 <= j < i ==> (#[trigger] y_data@[j])@ == goal[j],
                selection@ == pairs.take(i as int),
                forall|j: int|
                    0 <= j < selection@.len() ==> (#[trigger] selection@[j]).0 < n
                        && selection@[j].1 < f,
            decreases n - i,
        {
            let x_i = poly.index(i);
            assert(is_small(x.values()[i as int]));
            let x_int = f_to_int(x_i);
            let shifted = x_int + half;
            let y_int = floor_div(shifted, factor);
            y_data.push(Fr::from_i128(y_int));
            proof {
                lemma_scaled_down(x_int as int, f);
                let q = scaled_down(x_int as int, f);
                assert(q * f == x_int - rounding_rest(x_int as int, f) + f / 2);
            }
            let rest = shifted - y_int * factor;
            let table_index = rest as usize;
            proof {
                assert(position(i as int) == table_index);
                assert(pairs[i as int] == (i, table_index));
            }
            selection.push((i, table_index));
            i += 1;
        }
        assert(vals(y_data@) =~= goal);
        assert(pairs.take(n as int) =~= pairs);
        let y = Witness::new(
            copy_words(x.shape.as_slice()),
            y_data,
            x.data_type,
            self.output_sf,
            Role::Output,
        );
        let aux = selection_witness(
            copy_words(x.shape.as_slice()),
            num_var,
            rescale_sf,
            selection,
            x.data_type,
        );
        let mut r: Vec<Witness> = Vec::new();
        r.push(y);
        r.push(aux);
        r
    }

    open spec fn can_prove(
        &self,
        witnesses: Seq<&Witness>,
        edge_ids: Seq<usize>,
        out_claims: Seq<&Claim>,
    ) -> bool {
        can_claim_input(witnesses, edge_ids, out_claims)
    }

    open spec fn proved(
        &self,
        witnesses: Seq<&Witness>,
        edge_ids: Seq<usize>,
        out_claims: Seq<&Claim>,
        log: Seq<int>,
        proofs: Seq<SumcheckProof>,
        claims: Seq<Claim>,
        after: Seq<int>,
    ) -> bool {
        &&& proofs.len() == 0
        &&& input_claimed(witnesses, edge_ids, out_claims, claims)
        &&& after == log
    }

    fn prove(
        &self,
        witnesses: &[&Witness],
        edge_ids: &[usize],
        out_claims: &[&Claim],
        transcript: &mut Transcript,
    ) -> (r: (Vec<SumcheckProof>, Vec<Claim>)) {
        (Vec::new(), claim_input(witnesses, edge_ids, out_claims))
    }

    open spec fn can_verify(
        &self,
        witnesses: Seq<&Witness>,
        claims: Seq<&Claim>,
        sumcheck_proofs: Seq<&SumcheckProof>,
    ) -> bool {
        true
    }

    open spec fn verified(
        &self,
        witnesses: Seq<&Witness>,
        claims: Seq<&Claim>,
        sumcheck_proofs: Seq<&SumcheckProof>,
        log: Seq<int>,
        r: bool,
        after: Seq<int>,
    ) -> bool {
        r && after == log
    }

    fn verify(
        &self,
        witnesses: &[&Witness],
        claims: &[&Claim],
        sumcheck_proofs: &[&SumcheckProof],
        transcript: &mut Transcript,
    ) -> (r: bool) {
        true
    }
}

/// Division rounding down.
fn floor_div(a: i128, b: i128) -> (r: i128)
    requires
        0 < b,
        -0x7fff_ffff_ffff_ffff_ffff_ffff_ffff_ffff < a - b,
    ensures
        r == a as int / b as int,
        -0x7fff_ffff_ffff_ffff_ffff_ffff_ffff_ffff < r * b <= a,
{
    proof {
        lemma_div_mod(a as int, b as int);
    }
    if a >= 0 {
        a / b
    } else {
        let m = -a;
        let q = (m - 1) / b + 1;
        proof {
            lemma_div_mod((m - 1) as int, b as int);
            let t = (m - 1) as int / b as int;
            let s = (m - 1) as int % b as int;
            let bb = b as int;
            assert((-(t + 1)) * bb == -(t * bb) - bb) by (nonlinear_arith);
            crate::math::lemma_div_mod_unique(a as int, bb, -(t + 1), bb - 1 - s);
            assert(0 <= t <= m - 1) by (nonlinear_arith)
                requires
                    t * bb + s == m - 1,
                    0 <= s < bb,
                    m >= 1,
            ;
        }
        -q
    }
}

/// The place of what is left over by `k` bits more: the middle of the table. The factor is a word of
/// 32 bits where the rest is taken, so that from 32 bits on only an entry of zero leaves nothing; what
/// any other leaves has no place in the table, and the first one stands for it.
pub open spec fn scale_up_place(x: int, k: nat) -> int {
    if k < 32 || x == 0 {
        pow2(k) as int / 2
    } else {
        0
    }
}

impl BasicBlock for ScaleUp {
    open spec fn can_run(&self, inputs: Seq<&Witness>, advice: Seq<i128>) -> bool {
        &&& one_input(inputs)
        &&& self.input_sf <= self.output_sf
        &&& self.output_sf - self.input_sf < 64
        &&& self.output_sf - self.input_sf < usize::BITS
        &&& num_vars(inputs[0].shape@) + (self.output_sf - self.input_sf) <= usize::BITS
        &&& forall|p: int|
            0 <= p < inputs[0].values().len() ==> is_small(#[trigger] inputs[0].values()[p])
                && -0x8000_0000_0000_0000_0000_0000_0000_0000 <= signed(inputs[0].values()[p])
                * pow2((self.output_sf - self.input_sf) as nat)
                < 0x8000_0000_0000_0000_0000_0000_0000_0000
    }

    open spec fn ran(
        &self,
        inputs: Seq<&Witness>,
        advice: Seq<i128>,
        outputs: Seq<Witness>,
    ) -> bool {
        let x = inputs[0];
        let n = num_vars(x.shape@);
        let k = (self.output_sf - self.input_sf) as nat;
        let factor = pow2(k) as int;
        &&& outputs.len() == 2
        &&& outputs[0]@ == dense_value(
            x.shape@,
            x.values().map_values(|v: int| (signed(v) * factor) % modulus()),
            x.data_type,
            self.output_sf,
            Role::Output,
        )
        &&& selects(
            outputs[1],
            x.shape@,
            n,
            k,
            entry_selection(n, |p: int| scale_up_place(signed(x.values()[p]), k)),
            x.data_type,
        )
    }

    fn run(&self, inputs: &[&Witness], advice: &[i128]) -> (r: Vec<Witness>) {
        let x = inputs[0];
        let poly = x.data.as_ref().unwrap();
        let num_var = crate::arith::get_n(x.shape.as_slice());
        let n = two_to(num_var);
        let rescale_sf = self.output_sf - self.input_sf;
        let factor = power_of_two(rescale_sf) as i128;
        let half = two_to(rescale_sf) / 2;
        let ghost f = factor as int;
        let ghost goal = x.values().map_values(|v: int| (signed(v) * f) % modulus());
        let ghost position = |p: int| scale_up_place(signed(x.values()[p]), rescale_sf as nat);
        let ghost pairs = entry_selection(num_var as nat, position);
        let mut y_data: Vec<Fr> = Vec::with_capacity(n);
        let mut selection: Vec<(usize, usize)> = Vec::with_capacity(n);
        let mut i: usize = 0;
        while i < n
            invariant
                i <= n,
                self.can_run(inputs@, advice@),
                x == inputs@[0],
                *poly == x.data->0,
                num_var == num_vars(x.shape@),
                n == pow2(num_var as nat),
                n == poly.values().len(),
                rescale_sf == self.output_sf - self.input_sf,
                f == factor,
                f == pow2(rescale_sf as nat),
                0 < factor < 0x1_0000_0000_0000_0000,
                half == f / 2,
                goal == x.values().map_values(|v: int| (signed(v) * f) % modulus()),
                position == (|p: int|
                    scale_up_place(signed(x.values()[p]), rescale_sf as nat)),
                pairs == entry_selection(num_var as nat, position),
                y_data@.len() == i,
                forall|j: int| 0 <= j < i ==> (#[trigger] y_data@[j])@ == goal[j],
                selection@ == pairs.take(i as int),
                forall|j: int|
                    0 <= j < selection@.len() ==> (#[trigger] selection@[j]).0 < n
                        && selection@[j].1 < f,
            decreases n - i,
        {
            let x_i = poly.index(i);
            assert(is_small(x.values()[i as int]));
            let x_int = f_to_int(x_i);
            y_data.push(Fr::from_i128(x_int * factor));
            let table_index = if rescale_sf < 32 || x_int == 0 {
                half
            } else {
                0
            };
            proof {
                assert(position(i as int) == table_index);
                assert(pairs[i as int] == (i, table_index));
            }
            selection.push((i, table_index));
            i += 1;
        }
        assert(vals(y_data@) =~= goal);
        assert(pairs.take(n as int) =~= pairs);
        let y = Witness::new(
            copy_words(x.shape.as_slice()),
            y_data,
            x.data_type,
            self.output_sf,
            Role::Output,
        );
        let aux = selection_witness(
            copy_words(x.shape.as_slice()),
            num_var,
            rescale_sf,
            selection,
            x.data_type,
        );
        let mut r: Vec<Witness> = Vec::new();
        r.push(y);
        r.push(aux);
        r
    }

    open spec fn can_prove(
        &self,
        witnesses: Seq<&Witness>,
        edge_ids: Seq<usize>,
        out_claims: Seq<&Claim>,
    ) -> bool {
        can_claim_input(witnesses, edge_ids, out_claims)
    }

    open spec fn proved(
        &self,
        witnesses: Seq<&Witness>,
        edge_ids: Seq<usize>,
        out_claims: Seq<&Claim>,
        log: Seq<int>,
        proofs: Seq<SumcheckProof>,
        claims: Seq<Claim>,
        after: Seq<int>,
    ) -> bool {
        &&& proofs.len() == 0
        &&& input_claimed(witnesses, edge_ids, out_claims, claims)
        &&& after == log
    }

    fn prove(
        &self,
        witnesses: &[&Witness],
        edge_ids: &[usize],
        out_claims: &[&Claim],
        transcript: &mut Transcript,
    ) -> (r: (Vec<SumcheckProof>, Vec<Claim>)) {
        (Vec::new(), claim_input(witnesses, edge_ids, out_claims))
    }

    open spec fn can_verify(
        &self,
        witnesses: Seq<&Witness>,
        claims: Seq<&Claim>,
        sumcheck_proofs: Seq<&SumcheckProof>,
    ) -> bool {
        true
    }

    open spec fn verified(
        &self,
        witnesses: Seq<&Witness>,
        claims: Seq<&Claim>,
        sumcheck_proofs: Seq<&SumcheckProof>,
        log: Seq<int>,
        r: bool,
        after: Seq<int>,
    ) -> bool {
        r && after == log
    }

    fn verify(
        &self,
        witnesses: &[&Witness],
        claims: &[&Claim],
        sumcheck_proofs: &[&SumcheckProof],
        transcript: &mut Transcript,
    ) -> (r: bool) {
        true
    }
}

} // verus!
