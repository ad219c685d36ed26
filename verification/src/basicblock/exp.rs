//! The exponential function, decomposed into a power of two and a remainder.
use crate::arith::{
    f_to_int, is_small, lemma_nearest, lemma_signed, ln2_at, ln2_single_at, nearest, num_vars,
    round_div, scaled_ln2, scaled_ln2_single, signed,
};
use crate::basicblock::{
    can_claim_input, claim_input, entries_below, entry_selection, input_claimed, nothing_proved,
    selection_witness, selects, BasicBlock,
};
use crate::field::{modulus, vals, CryptoField, Fr};
use crate::math::{lemma_cong_add, lemma_cong_mul, lemma_reduced, two_to};
use crate::mle::mle;
use crate::poly::dense::DenseMLPoly;
use crate::sumcheck::linear::{tables_of, LinearSumcheckProver};
use crate::sumcheck::prover::{header, messages, SumcheckProof, SumcheckProver};
use crate::sumcheck::theory::{honest, partial_sum, rounds_challenges, rounds_log, value_at};
use crate::sumcheck::verify::{accepted, SumcheckVerifier};
use crate::transcript::Transcript;
use crate::witness::{copy_words, dense_value, holds, Claim, DataType, Poly, Role, Witness};
use vstd::arithmetic::power2::pow2;
use vstd::prelude::*;

verus! {

/// The number of bits of a power of two in the decomposition: the powers `2^0` to `2^-15`.
pub const K_BITS: usize = 4;

/// The number of bits of a position in the table of the plain lookup.
pub const TABLE_BITS: usize = 10;

/// The number of times that `ln 2` goes into `-x`, rounded to the nearest integer.
pub open spec fn steps(x: int, ln2: int) -> int {
    nearest(-signed(x), ln2)
}

/// A number of steps without its sign: a negative number is none.
pub open spec fn step_count(k: int) -> int {
    if k < 0 {
        0
    } else {
        k
    }
}

/// What is left of `x` after the steps: `x + k * ln2`.
pub open spec fn remainder(x: int, ln2: int) -> int {
    (x + step_count(steps(x, ln2)) * ln2) % modulus()
}

/// The place of a number of steps in a table of the given size; the first one where it has none.
pub open spec fn step_place(x: int, ln2: int, size: int) -> int {
    crate::basicblock::range::table_position(steps(x, ln2), size)
}

/// The decomposition `x = r - k * ln2` of an input that is not positive and not below the table:
/// the selected place is `k`, and the remainder is at most half of `ln 2` in absolute value.
pub proof fn lemma_decomposition(x: int, ln2: int, size: int)
    requires
        is_small(x),
        0 < ln2 < 0x8000_0000_0000_0000,
        0 < size,
        signed(x) <= 0,
        -2 * signed(x) < (2 * size - 1) * ln2,
    ensures
        ({
            let k = step_place(x, ln2, size);
            let r = signed(remainder(x, ln2));
            &&& 0 <= k < size
            &&& signed(x) == r - k * ln2
            &&& -ln2 <= 2 * r <= ln2
        }),
{
    let a = -signed(x);
    let k = nearest(a, ln2);
    lemma_nearest(a, ln2);
    crate::math::lemma_div_mod(2 * a + ln2, 2 * ln2);
    assert(0 <= k < size) by (nonlinear_arith)
        requires
            k == (2 * a + ln2) / (2 * ln2),
            a >= 0,
            ln2 > 0,
            2 * a < (2 * size - 1) * ln2,
    ;
    let r = signed(x) + k * ln2;
    assert(-ln2 <= 2 * r <= ln2);
    crate::arith::lemma_signed_cong(x);
    lemma_cong_add(signed(x), x, k * ln2, k * ln2);
    lemma_signed(r);
}

/// Which of the two rounded values of `ln 2` is used.
pub open spec fn ln2_of(single: bool, sf_log: nat) -> int {
    if single {
        ln2_single_at(sf_log)
    } else {
        ln2_at(sf_log)
    }
}

/// The input can be decomposed with a table of `2^table_bits` places.
pub open spec fn can_decompose(x: &Witness, table_bits: nat, sf_log: nat) -> bool {
    &&& x.filled()
    &&& 0 < sf_log < 32
    &&& num_vars(x.shape@) + table_bits <= usize::BITS
    &&& entries_below(x.values(), 0x1000_0000_0000_0000_0000_0000_0000_0000)
}

/// The remainders and the selection of the places.
pub open spec fn decomposed(
    x: &Witness,
    table_bits: nat,
    sf_log: nat,
    ln2: int,
    outputs: Seq<Witness>,
) -> bool {
    let n = num_vars(x.shape@);
    &&& outputs.len() == 2
    &&& outputs[0]@ == dense_value(
        x.shape@,
        x.values().map_values(|v: int| remainder(v, ln2)),
        DataType::Float,
        sf_log as usize,
        Role::Output,
    )
    &&& selects(
        outputs[1],
        x.shape@,
        n,
        table_bits,
        entry_selection(n, |p: int| step_place(x.values()[p], ln2, pow2(table_bits) as int)),
        x.data_type,
    )
}

/// Decomposes every entry of a tensor.
fn decompose(x: &Witness, table_bits: usize, sf_log: usize, single: bool) -> (r: Vec<Witness>)
    requires
        can_decompose(x, table_bits as nat, sf_log as nat),
        table_bits <= 16,
    ensures
        decomposed(
            x,
            table_bits as nat,
            sf_log as nat,
            ln2_of(single, sf_log as nat),
            r@,
        ),
{
    let poly = x.data.as_ref().unwrap();
    let num_var = crate::arith::get_n(x.shape.as_slice());
    let n = two_to(num_var);
    let table_size = two_to(table_bits);
    let ln2: u64 = if single {
        scaled_ln2_single(sf_log)
    } else {
        scaled_ln2(sf_log)
    };
    let ln2_f = Fr::from_u64(ln2);
    let ghost l = ln2 as int;
    let ghost size = table_size as int;
    let ghost goal = x.values().map_values(|v: int| remainder(v, l));
    let ghost position = |p: int| step_place(x.values()[p], l, size);
    let ghost pairs = entry_selection(num_var as nat, position);
    let mut r_data: Vec<Fr> = Vec::with_capacity(n);
    let mut selection: Vec<(usize, usize)> = Vec::with_capacity(n);
    let mut i: usize = 0;
    while i < n
        invariant
            i <= n,
            can_decompose(x, table_bits as nat, sf_log as nat),
            *poly == x.data->0,
            num_var == num_vars(x.shape@),
            n == pow2(num_var as nat),
            n == poly.values().len(),
            l == ln2,
            0 < ln2 < 0x8000_0000_0000_0000,
            ln2_f@ == l,
            size == table_size,
            size == pow2(table_bits as nat),
            0 < size,
            goal == x.values().map_values(|v: int| remainder(v, l)),
            position == (|p: int| step_place(x.values()[p], l, size)),
            pairs == entry_selection(num_var as nat, position),
            r_data@.len() == i,
            forall|j: int| 0 <= j < i ==> (#[trigger] r_data@[j])@ == goal[j],
            selection@ == pairs.take(i as int),
            forall|j: int|
                0 <= j < selection@.len() ==> (#[trigger] selection@[j]).0 < n && selection@[j].1
                    < size,
        decreases n - i,
    {
        let x_i = poly.index(i);
        assert(is_small(x.values()[i as int]));
        let k = round_div(-f_to_int(x_i), ln2 as i128);
        let count: i128 = if k < 0 {
            0
        } else {
            k
        };
        let count_f = Fr::from_i128(count);
        let moved = count_f.mul(ln2_f);
        proof {
            lemma_reduced(count as int);
            lemma_cong_mul(count_f@, count as int, l, l);
            lemma_reduced(count_f@ * l);
            lemma_cong_add(x_i@, x_i@, moved@, count * l);
        }
        r_data.push(x_i.add(moved));
        let table_index: usize = if k >= 0 && k < table_size as i128 {
            k as usize
        } else {
            0
        };
        proof {
            assert(position(i as int) == table_index);
            assert(pairs[i as int] == (i, table_index));
        }
        selection.push((i, table_index));
        i += 1;
    }
    assert(vals(r_data@) =~= goal);
    assert(pairs.take(n as int) =~= pairs);
    let r = Witness::new(
        copy_words(x.shape.as_slice()),
        r_data,
        DataType::Float,
        sf_log,
        Role::Output,
    );
    let aux = selection_witness(
        copy_words(x.shape.as_slice()),
        num_var,
        table_bits,
        selection,
        x.data_type,
    );
    let mut out: Vec<Witness> = Vec::new();
    out.push(r);
    out.push(aux);
    out
}

/// Decomposes an input that is not positive into `k` steps of `ln 2` and a remainder: the first
/// output holds the remainders, the second one selects `k` among `0..16`.
#[derive(Clone, Copy, Debug)]
pub struct ExpHelper {
    /// The number of fractional bits of the input.
    pub sf_log: usize,
}

impl BasicBlock for ExpHelper {
    open spec fn can_run(&self, inputs: Seq<&Witness>, advice: Seq<i128>) -> bool {
        inputs.len() == 1 && can_decompose(inputs[0], K_BITS as nat, self.sf_log as nat)
    }

    open spec fn ran(
        &self,
        inputs: Seq<&Witness>,
        advice: Seq<i128>,
        outputs: Seq<Witness>,
    ) -> bool {
        decomposed(
            inputs[0],
            K_BITS as nat,
            self.sf_log as nat,
            ln2_at(self.sf_log as nat),
            outputs,
        )
    }

    fn run(&self, inputs: &[&Witness], advice: &[i128]) -> (r: Vec<Witness>) {
        decompose(inputs[0], K_BITS, self.sf_log, false)
    }

    open spec fn can_prove(
        &self,
        witnesses: Seq<&Witness>,
        edge_ids: Seq<usize>,
        out_claims: Seq<&Claim>,
    ) -> bool {
        can_claim_input(witnesses, edge_ids, out_claims)
    }

    open spec fn proved(
        &self,
        witnesses: Seq<&Witness>,
        edge_ids: Seq<usize>,
        out_claims: Seq<&Claim>,
        log: Seq<int>,
        proofs: Seq<SumcheckProof>,
        claims: Seq<Claim>,
        after: Seq<int>,
    ) -> bool {
        &&& proofs.len() == 0
        &&& input_claimed(witnesses, edge_ids, out_claims, claims)
        &&& after == log
    }

    fn prove(
        &self,
        witnesses: &[&Witness],
        edge_ids: &[usize],
        out_claims: &[&Claim],
        transcript: &mut Transcript,
    ) -> (r: (Vec<SumcheckProof>, Vec<Claim>)) {
        (Vec::new(), claim_input(witnesses, edge_ids, out_claims))
    }

    open spec fn can_verify(
        &self,
        witnesses: Seq<&Witness>,
        claims: Seq<&Claim>,
        sumcheck_proofs: Seq<&SumcheckProof>,
    ) -> bool {
        true
    }

    open spec fn verified(
        &self,
        witnesses: Seq<&Witness>,
        claims: Seq<&Claim>,
        sumcheck_proofs: Seq<&SumcheckProof>,
        log: Seq<int>,
        r: bool,
        after: Seq<int>,
    ) -> bool {
        r && after == log
    }

    fn verify(
        &self,
        witnesses: &[&Witness],
        claims: &[&Claim],
        sumcheck_proofs: &[&SumcheckProof],
        transcript: &mut Transcript,
    ) -> (r: bool) {
        true
    }
}

/// The exponential function by lookup in a committed table, without the decomposition.
#[derive(Clone, Copy, Debug)]
pub struct NonStructuredExp {
    /// The number of fractional bits of the input.
    pub sf_log: usize,
}

/// The table of the selection at the point of the output claim, and the lookup table.
pub open spec fn lookup_tables(
    selection: Seq<int>,
    t: Seq<int>,
    t_vars: nat,
    point: Seq<int>,
) -> Seq<Seq<int>> {
    seq![
        Seq::new(
            pow2(t_vars),
            |q: int| mle(selection, point + crate::mle::bits(q, t_vars)) % modulus(),
        ),
        t,
    ]
}

impl BasicBlock for NonStructuredExp {
    open spec fn can_run(&self, inputs: Seq<&Witness>, advice: Seq<i128>) -> bool {
        inputs.len() == 2 && can_decompose(inputs[0], TABLE_BITS as nat, self.sf_log as nat)
    }

    open spec fn ran(
        &self,
        inputs: Seq<&Witness>,
        advice: Seq<i128>,
        outputs: Seq<Witness>,
    ) -> bool {
        decomposed(
            inputs[0],
            TABLE_BITS as nat,
            self.sf_log as nat,
            ln2_single_at(self.sf_log as nat),
            outputs,
        )
    }

    fn run(&self, inputs: &[&Witness], advice: &[i128]) -> (r: Vec<Witness>) {
        decompose(inputs[0], TABLE_BITS, self.sf_log, true)
    }

    open spec fn can_prove(
        &self,
        witnesses: Seq<&Witness>,
        edge_ids: Seq<usize>,
        out_claims: Seq<&Claim>,
    ) -> bool {
        &&& witnesses.len() == 4
        &&& edge_ids.len() == 4
        &&& out_claims.len() >= 1
        &&& witnesses[0].data is Some
        &&& witnesses[0].data->0.valid()
        &&& witnesses[1].data matches Some(Poly::Dense(t)) && t.well_formed() && t.n < usize::BITS
        &&& witnesses[3].data matches Some(Poly::Sparse(s)) && s.well_formed()
            && out_claims[0].point@.len() + witnesses[1].data->0.vars() == s.n
        &&& witnesses[0].data->0.vars() == witnesses[1].data->0.vars()
    }

    open spec fn proved(
        &self,
        witnesses: Seq<&Witness>,
        edge_ids: Seq<usize>,
        out_claims: Seq<&Claim>,
        log: Seq<int>,
        proofs: Seq<SumcheckProof>,
        claims: Seq<Claim>,
        after: Seq<int>,
    ) -> bool {
        let n = witnesses[1].data->0.vars();
        let tables = lookup_tables(
            witnesses[3].values(),
            witnesses[1].values(),
            n,
            vals(out_claims[0].point@),
        );
        let terms = seq![(1int, tables)];
        let start = header(log, n as int, 2);
        let msgs = messages(proofs[0].round_messages@);
        let challenges = rounds_challenges(start, msgs, n as int);
        &&& proofs.len() == 1
        &&& msgs.len() == n
        &&& honest(terms, challenges, msgs, 2)
        &&& proofs[0].final_eval@ == value_at(terms, challenges) % modulus()
        &&& claims.len() == 1
        &&& claims[0].edge_id == edge_ids[0]
        &&& claims[0].sparse_id == 0
        &&& vals(claims[0].point@) == challenges
        &&& claims[0].eval@ == mle(witnesses[0].values(), challenges) % modulus()
        &&& after == rounds_log(start, msgs, n as int)
    }

    fn prove(
        &self,
        witnesses: &[&Witness],
        edge_ids: &[usize],
        out_claims: &[&Claim],
        transcript: &mut Transcript,
    ) -> (r: (Vec<SumcheckProof>, Vec<Claim>)) {
        let x = witnesses[0].data.as_ref().unwrap();
        let ghost log = transcript@;
        let n = witnesses[1].data.as_ref().unwrap().n();
        let mut prover = LinearSumcheckProver::new(n, 2, transcript);
        let mut polys: Vec<DenseMLPoly> = Vec::new();
        if let Some(Poly::Sparse(aux)) = &witnesses[3].data {
            let partial = aux.fix_variables(out_claims[0].point.as_slice());
            let dense = partial.to_dense();
            polys.push(dense);
        }
        if let Some(Poly::Dense(t)) = &witnesses[1].data {
            polys.push(t.clone());
        }
        let ghost tables = lookup_tables(
            witnesses@[3].values(),
            witnesses@[1].values(),
            n as nat,
            vals(out_claims@[0].point@),
        );
        proof {
            assert(tables_of(polys@)[0] =~= tables[0]);
            assert(tables_of(polys@) =~= tables);
        }
        let proof_ = prover.prove(&polys, transcript);
        let challenges = prover.challenges;
        let eval = x.evaluate_at_point(challenges.as_slice());
        let mut claims: Vec<Claim> = Vec::new();
        claims.push(Claim { edge_id: edge_ids[0], sparse_id: 0, point: challenges, eval });
        let mut proofs: Vec<SumcheckProof> = Vec::new();
        proofs.push(proof_);
        (proofs, claims)
    }

    open spec fn can_verify(
        &self,
        witnesses: Seq<&Witness>,
        claims: Seq<&Claim>,
        sumcheck_proofs: Seq<&SumcheckProof>,
    ) -> bool {
        &&& claims.len() >= 1
        &&& sumcheck_proofs.len() == 1
        &&& sumcheck_proofs[0].round_messages@.len() >= 1
        &&& sumcheck_proofs[0].round_messages@[0]@.len() >= 2
    }

    open spec fn verified(
        &self,
        witnesses: Seq<&Witness>,
        claims: Seq<&Claim>,
        sumcheck_proofs: Seq<&SumcheckProof>,
        log: Seq<int>,
        r: bool,
        after: Seq<int>,
    ) -> bool {
        let n = claims[0].point@.len() as int;
        let start = header(log, n, 2);
        let msgs = messages(sumcheck_proofs[0].round_messages@);
        let challenges = rounds_challenges(start, msgs, n);
        let sum = (msgs[0][0] + msgs[0][1]) % modulus();
        &&& r <==> accepted(n, 2, sum, msgs, challenges)
        &&& r ==> after == rounds_log(start, msgs, n)
        &&& forall|terms: Seq<(int, Seq<Seq<int>>)>| #[trigger]
            honest(terms, challenges, msgs, 2) && msgs.len() == n && crate::sumcheck::theory::fits(
                terms,
                n as nat,
                2,
            ) ==> r
    }

    fn verify(
        &self,
        witnesses: &[&Witness],
        claims: &[&Claim],
        sumcheck_proofs: &[&SumcheckProof],
        transcript: &mut Transcript,
    ) -> (r: bool) {
        let n = claims[0].point.len();
        let mut verifier = SumcheckVerifier::new(n, 2, transcript);
        let first = &sumcheck_proofs[0].round_messages[0];
        let ghost msgs = messages(sumcheck_proofs@[0].round_messages@);
        assert(msgs[0] == vals(first@));
        let expected_sum = first[0].add(first[1]);
        let round_messages = copy_messages(&sumcheck_proofs[0].round_messages);
        let ghost start = transcript@;
        assert(messages(round_messages@) == msgs);
        assert(expected_sum@ == (msgs[0][0] + msgs[0][1]) % modulus());
        let (value, _challenges) = verifier.verify(transcript, round_messages, expected_sum);
        proof {
            let challenges = rounds_challenges(start, msgs, n as int);
            assert forall|terms: Seq<(int, Seq<Seq<int>>)>| #[trigger]
                honest(terms, challenges, msgs, 2) && msgs.len() == n
                    && crate::sumcheck::theory::fits(terms, n as nat, 2) implies value is Some by {
                crate::sumcheck::theory::lemma_first_message(terms, challenges, msgs, 2);
                let d = verifier.num_poly as int;
                let m = verifier.num_var as int;
                assert(m == n && d == 2 && msgs.len() == m);
                assert(expected_sum@ == partial_sum(terms, Seq::<int>::empty(), m as nat)
                    % modulus());
                assert(crate::sumcheck::theory::fits(terms, m as nat, d as nat));
                assert(challenges == rounds_challenges(start, msgs, m));
                assert(honest(terms, challenges, msgs, d as nat));
            }
        }
        value.is_some()
    }
}

/// Proving a lookup and verifying the proof from the same transcript: it is accepted, the claim that
/// is left about the input is true, and both transcripts agree afterwards.
pub proof fn lemma_lookup_round_trip(
    block: NonStructuredExp,
    witnesses: Seq<&Witness>,
    edge_ids: Seq<usize>,
    out_claims: Seq<&Claim>,
    log: Seq<int>,
    proofs: Seq<SumcheckProof>,
    claims: Seq<Claim>,
    after: Seq<int>,
    r: bool,
    seen: Seq<int>,
)
    requires
        block.can_prove(witnesses, edge_ids, out_claims),
        out_claims[0].point@.len() == witnesses[1].data->0.vars(),
        block.proved(witnesses, edge_ids, out_claims, log, proofs, claims, after),
        block.verified(witnesses, out_claims, seq![&proofs[0]], log, r, seen),
    ensures
        r,
        claims.len() == 1,
        claims[0].edge_id == edge_ids[0],
        holds(&claims[0], witnesses[0]),
        seen == after,
{
    let n = witnesses[1].data->0.vars();
    let tables = lookup_tables(
        witnesses[3].values(),
        witnesses[1].values(),
        n,
        vals(out_claims[0].point@),
    );
    let terms = seq![(1int, tables)];
    let msgs = messages(proofs[0].round_messages@);
    let challenges = rounds_challenges(header(log, n as int, 2), msgs, n as int);
    assert(seq![&proofs[0]][0] == &proofs[0]);
    assert(terms[0].1 == tables);
    assert(tables[0].len() == pow2(n) && tables[1].len() == pow2(n));
    assert(crate::sumcheck::theory::fits(terms, n, 2));
    assert(honest(terms, challenges, msgs, 2));
}

/// A copy of a list of messages.
pub fn copy_messages(v: &Vec<Vec<Fr>>) -> (r: Vec<Vec<Fr>>)
    ensures
        messages(r@) =~= messages(v@),
        r@.len() == v@.len(),
{
    let mut r: Vec<Vec<Fr>> = Vec::with_capacity(v.len());
    let mut i: usize = 0;
    while i < v.len()
        invariant
            i <= v@.len(),
            r@.len() == i,
            forall|j: int| 0 <= j < i ==> (#[trigger] r@[j])@ == v@[j]@,
        decreases v.len() - i,
    {
        r.push(Fr::copy_of(v[i].as_slice()));
        i += 1;
    }
    r
}

/// The power `2^-k` at 15 fractional bits for the selected `k` in `0..16`: `2^(15 - k)`.
#[derive(Clone, Copy, Debug)]
pub struct TwoPow;

/// The powers that the first pairs of a selection give; a later pair for an entry replaces an
/// earlier one.
pub open spec fn power_table(n: nat, selection: Seq<(usize, usize)>, count: nat) -> Seq<int>
    decreases count,
{
    if count == 0 {
        Seq::new(pow2(n), |p: int| 0)
    } else {
        let pair = selection[count - 1];
        power_table(n, selection, (count - 1) as nat).update(
            pair.0 as int,
            pow2((15 - pair.1) as nat) as int,
        )
    }
}

impl BasicBlock for TwoPow {
    open spec fn can_run(&self, inputs: Seq<&Witness>, advice: Seq<i128>) -> bool {
        &&& inputs.len() == 1
        &&& num_vars(inputs[0].shape@) <= usize::MAX
        &&& inputs[0].data matches Some(Poly::Sparse(s)) && s.selection.input_num_vars
            < usize::BITS && forall|i: int|
            0 <= i < s.selection.selection@.len() ==> (#[trigger] s.selection.selection@[i]).0
                < pow2(s.selection.input_num_vars as nat) && s.selection.selection@[i].1 <= 15
    }

    open spec fn ran(
        &self,
        inputs: Seq<&Witness>,
        advice: Seq<i128>,
        outputs: Seq<Witness>,
    ) -> bool {
        let selection = inputs[0].data->0->Sparse_0.selection;
        &&& outputs.len() == 1
        &&& outputs[0]@ == dense_value(
            inputs[0].shape@,
            power_table(
                selection.input_num_vars as nat,
                selection.selection@,
                selection.selection@.len(),
            ),
            DataType::Float,
            15,
            Role::Output,
        )
    }

    fn run(&self, inputs: &[&Witness], advice: &[i128]) -> (r: Vec<Witness>) {
        let x = inputs[0];
        let mut y_data: Vec<Fr> = Vec::new();
        if let Some(Poly::Sparse(s)) = &x.data {
            let n = s.selection.input_num_vars;
            let pairs = &s.selection.selection;
            y_data = Fr::repeat(Fr::zero(), two_to(n));
            let mut i: usize = 0;
            assert(vals(y_data@) =~= power_table(n as nat, pairs@, 0));
            while i < pairs.len()
                invariant
                    i <= pairs@.len(),
                    y_data@.len() == pow2(n as nat),
                    vals(y_data@) == power_table(n as nat, pairs@, i as nat),
                    forall|i: int|
                        0 <= i < pairs@.len() ==> (#[trigger] pairs@[i]).0 < pow2(n as nat)
                            && pairs@[i].1 <= 15,
                decreases pairs.len() - i,
            {
                let (input_index, table_index) = pairs[i];
                assert(pairs@[i as int].1 <= 15);
                let power = Fr::from_u64(crate::arith::power_of_two(15 - table_index));
                let ghost before = y_data@;
                y_data.set(input_index, power);
                assert(vals(y_data@) =~= vals(before).update(input_index as int, power@));
                i += 1;
            }
        }
        let y = Witness::new(
            copy_words(x.shape.as_slice()),
            y_data,
            DataType::Float,
            15,
            Role::Output,
        );
        let mut r: Vec<Witness> = Vec::new();
        r.push(y);
        r
    }

    open spec fn can_prove(
        &self,
        witnesses: Seq<&Witness>,
        edge_ids: Seq<usize>,
        out_claims: Seq<&Claim>,
    ) -> bool {
        true
    }

    open spec fn proved(
        &self,
        witnesses: Seq<&Witness>,
        edge_ids: Seq<usize>,
        out_claims: Seq<&Claim>,
        log: Seq<int>,
        proofs: Seq<SumcheckProof>,
        claims: Seq<Claim>,
        after: Seq<int>,
    ) -> bool {
        nothing_proved(log, proofs, claims, after)
    }

    fn prove(
        &self,
        witnesses: &[&Witness],
        edge_ids: &[usize],
        out_claims: &[&Claim],
        transcript: &mut Transcript,
    ) -> (r: (Vec<SumcheckProof>, Vec<Claim>)) {
        (Vec::new(), Vec::new())
    }

    open spec fn can_verify(
        &self,
        witnesses: Seq<&Witness>,
        claims: Seq<&Claim>,
        sumcheck_proofs: Seq<&SumcheckProof>,
    ) -> bool {
        true
    }

    open spec fn verified(
        &self,
        witnesses: Seq<&Witness>,
        claims: Seq<&Claim>,
        sumcheck_proofs: Seq<&SumcheckProof>,
        log: Seq<int>,
        r: bool,
        after: Seq<int>,
    ) -> bool {
        r && after == log
    }

    fn verify(
        &self,
        witnesses: &[&Witness],
        claims: &[&Claim],
        sumcheck_proofs: &[&SumcheckProof],
        transcript: &mut Transcript,
    ) -> (r: bool) {
        true
    }
}

/// The powers that a selection of one place for every entry gives.
proof fn lemma_power_table(n: nat, position: spec_fn(int) -> int, count: nat)
    requires
        n < usize::BITS,
        count <= pow2(n),
        forall|p: int| 0 <= p < pow2(n) ==> 0 <= #[trigger] position(p) <= 15,
    ensures
        power_table(n, entry_selection(n, position), count) =~= Seq::new(
            pow2(n),
            |p: int|
                if p < count {
                    pow2((15 - position(p)) as nat) as int
                } else {
                    0
                },
        ),
    decreases count,
{
    if count > 0 {
        lemma_power_table(n, position, (count - 1) as nat);
        vstd::bits::lemma_usize_pow2_no_overflow(n);
        assert(0 <= position(count - 1) <= 15);
        assert(entry_selection(n, position)[count - 1].0 == count - 1);
    }
}

/// The powers of the places that the decomposition selects: of an input between `-15 ln 2` and zero
/// the power at 15 fractional bits is `2^(15 - k)`, where `k` is the number of steps, in every entry
/// of the padded table.
pub proof fn lemma_step_powers(
    helper: ExpHelper,
    x: &Witness,
    advice: Seq<i128>,
    parts: Seq<Witness>,
    powers: Seq<Witness>,
)
    requires
        helper.can_run(seq![x], advice),
        helper.ran(seq![x], advice, parts),
        forall|p: int|
            0 <= p < x.values().len() ==> -15 * ln2_at(helper.sf_log as nat) <= signed(
                #[trigger] x.values()[p],
            ) <= 0,
    ensures
        TwoPow.can_run(seq![&parts[1]], advice),
        TwoPow.ran(seq![&parts[1]], advice, powers) ==> {
            &&& powers.len() == 1
            &&& powers[0].sf == 15
            &&& powers[0].shape@ == x.shape@
            &&& powers[0].values() =~= x.values().map_values(
                |v: int| pow2((15 - steps(v, ln2_at(helper.sf_log as nat))) as nat) as int,
            )
        },
        forall|p: int|
            0 <= p < x.values().len() ==> 0 <= steps(
                #[trigger] x.values()[p],
                ln2_at(helper.sf_log as nat),
            ) <= 15,
{
    let ln2 = ln2_at(helper.sf_log as nat);
    let n = num_vars(x.shape@);
    let size = pow2(K_BITS as nat) as int;
    let position = |p: int| step_place(x.values()[p], ln2, size);
    crate::arith::lemma_ln2_positive(helper.sf_log as nat);
    vstd::arithmetic::power2::lemma2_to64();
    assert(size == 16);
    assert(x.values().len() == pow2(n));
    assert forall|p: int| 0 <= p < pow2(n) implies 0 <= steps(#[trigger] x.values()[p], ln2) <= 15
        && position(p) == steps(x.values()[p], ln2) by {
        let a = -signed(x.values()[p]);
        let k = nearest(a, ln2);
        assert(0 <= k <= 15) by (nonlinear_arith)
            requires
                k == (2 * a + ln2) / (2 * ln2),
                0 <= a <= 15 * ln2,
                ln2 > 0,
        ;
    }
    let pairs = entry_selection(n, position);
    let places = entry_selection(n, |p: int| step_place(x.values()[p], ln2, pow2(4) as int));
    assert(places =~= pairs);
    lemma_power_table(n, position, pow2(n));
    let s = parts[1].data->0->Sparse_0.selection;
    assert(s.selection@ == pairs);
    assert forall|i: int| 0 <= i < s.selection@.len() implies (#[trigger] s.selection@[i]).0
        < pow2(n) && s.selection@[i].1 <= 15 by {
        assert(0 <= position(i) <= 15);
    }
    if TwoPow.ran(seq![&parts[1]], advice, powers) {
        let table = power_table(n, pairs, pairs.len());
        assert(powers[0].values() == table);
        assert(powers[0].sf == powers[0]@.sf && powers[0].shape@ == powers[0]@.shape);
        let goal = x.values().map_values(|v: int| pow2((15 - steps(v, ln2)) as nat) as int);
        assert forall|p: int| 0 <= p < goal.len() implies table[p] == goal[p] by {
            assert(position(p) == steps(x.values()[p], ln2));
        }
        assert(table =~= goal);
    }
}

} // verus!
