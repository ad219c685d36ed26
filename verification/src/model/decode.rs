//! Greedy decoding: the most likely next tokens, and the check that they are the tokens that follow.
use crate::arith::{ceil_log, f_to_int, is_small, lemma_ceil_log, log2_ceil, signed};
use crate::math::two_to;
use crate::witness::Witness;
use vstd::arithmetic::power2::pow2;
use vstd::prelude::*;

verus! {

/// The logit of token `v` at position `pos`; the positions are padded to a power of two.
pub open spec fn logit(values: Seq<int>, seq_len: nat, pos: int, v: int) -> int {
    signed(values[pos + v * pow2(ceil_log(seq_len as int))])
}

/// The first token whose logit is the largest; the first of all if there is none.
pub open spec fn is_argmax(
    values: Seq<int>,
    seq_len: nat,
    pos: int,
    vocab_size: nat,
    best: int,
) -> bool {
    if vocab_size == 0 {
        best == 0
    } else {
        &&& 0 <= best < vocab_size
        &&& forall|v: int|
            0 <= v < vocab_size ==> #[trigger] logit(values, seq_len, pos, v) <= logit(
                values,
                seq_len,
                pos,
                best,
            )
        &&& forall|v: int|
            0 <= v < best ==> #[trigger] logit(values, seq_len, pos, v) < logit(
                values,
                seq_len,
                pos,
                best,
            )
    }
}

/// The most likely token after the one at a position: the first with the largest logit.
pub fn extract_argmax_at(logits: &Witness, pos: usize, seq_len: usize, vocab_size: usize) -> (r:
    usize)
    requires
        logits.filled(),
        ceil_log(seq_len as int) < usize::BITS,
        pos < pow2(ceil_log(seq_len as int)),
        pow2(ceil_log(seq_len as int)) * vocab_size <= pow2(logits.data->0.vars()),
        forall|p: int|
            0 <= p < logits.values().len() ==> is_small(#[trigger] logits.values()[p]),
    ensures
        is_argmax(logits.values(), seq_len as nat, pos as int, vocab_size as nat, r as int),
{
    let poly = logits.data.as_ref().unwrap();
    let seq_pad = two_to(log2_ceil(seq_len));
    let ghost values = logits.values();
    let ghost n = poly.vars();
    let limit = two_to(poly.n());
    let mut best_v: usize = 0;
    let mut best_val: i128 = 0;
    let mut v: usize = 0;
    while v < vocab_size
        invariant
            v <= vocab_size,
            *poly == logits.data->0,
            poly.valid(),
            n == poly.vars(),
            limit == pow2(n),
            values == poly.values(),
            values.len() == pow2(n),
            seq_pad == pow2(ceil_log(seq_len as int)),
            pos < seq_pad,
            seq_pad * vocab_size <= pow2(n),
            forall|p: int| 0 <= p < values.len() ==> is_small(#[trigger] values[p]),
            is_argmax(values, seq_len as nat, pos as int, v as nat, best_v as int),
            v > 0 ==> best_val == logit(values, seq_len as nat, pos as int, best_v as int),
        decreases vocab_size - v,
    {
        proof {
            let (a, k, s, m) = (pos as int, v as int, seq_pad as int, vocab_size as int);
            assert(a + k * s < s * m && k * s >= 0) by (nonlinear_arith)
                requires
                    0 <= a < s,
                    0 <= k,
                    k + 1 <= m,
            ;
        }
        let x = poly.index(pos + v * seq_pad);
        let val = f_to_int(x);
        assert(val == logit(values, seq_len as nat, pos as int, v as int));
        if v == 0 || val > best_val {
            best_val = val;
            best_v = v;
        }
        v += 1;
    }
    best_v
}

/// The most likely next token at every position.
pub fn next_tokens(logits: &Witness, seq_len: usize, vocab_size: usize) -> (r: Vec<usize>)
    requires
        logits.filled(),
        ceil_log(seq_len as int) < usize::BITS,
        pow2(ceil_log(seq_len as int)) * vocab_size <= pow2(logits.data->0.vars()),
        forall|p: int|
            0 <= p < logits.values().len() ==> is_small(#[trigger] logits.values()[p]),
    ensures
        r@.len() == seq_len,
        forall|i: int|
            0 <= i < seq_len ==> is_argmax(
                logits.values(),
                seq_len as nat,
                i,
                vocab_size as nat,
                (#[trigger] r@[i]) as int,
            ),
{
    let mut r: Vec<usize> = Vec::new();
    let mut i: usize = 0;
    proof {
        lemma_ceil_log(seq_len as int);
    }
    while i < seq_len
        invariant
            i <= seq_len <= pow2(ceil_log(seq_len as int)),
            logits.filled(),
            ceil_log(seq_len as int) < usize::BITS,
            pow2(ceil_log(seq_len as int)) * vocab_size <= pow2(logits.data->0.vars()),
            forall|p: int|
                0 <= p < logits.values().len() ==> is_small(#[trigger] logits.values()[p]),
            r@.len() == i,
            forall|j: int|
                0 <= j < i ==> is_argmax(
                    logits.values(),
                    seq_len as nat,
                    j,
                    vocab_size as nat,
                    (#[trigger] r@[j]) as int,
                ),
        decreases seq_len - i,
    {
        r.push(extract_argmax_at(logits, i, seq_len, vocab_size));
        i += 1;
    }
    r
}

/// The tokens before anything is generated: one for each word, and the first token at the positions
/// after.
pub fn starting_tokens(words: &[usize], seq_len: usize, vocab_size: usize) -> (r: Vec<usize>)
    requires
        words@.len() <= seq_len,
        vocab_size > 0,
    ensures
        r@ == Seq::new(
            seq_len as nat,
            |i: int|
                if i < words@.len() {
                    words@[i] % vocab_size
                } else {
                    0
                },
        ),
{
    let ghost tokens = Seq::new(
        seq_len as nat,
        |i: int|
            if i < words@.len() {
                words@[i] % vocab_size
            } else {
                0
            },
    );
    let mut r: Vec<usize> = Vec::new();
    let mut i: usize = 0;
    while i < seq_len
        invariant
            i <= seq_len,
            words@.len() <= seq_len,
            vocab_size > 0,
            tokens.len() == seq_len,
            forall|j: int|
                0 <= j < seq_len ==> #[trigger] tokens[j] == if j < words@.len() {
                    words@[j] % vocab_size
                } else {
                    0
                },
            r@ == tokens.take(i as int),
        decreases seq_len - i,
    {
        let token: usize = if i < words.len() {
            words[i] % vocab_size
        } else {
            0
        };
        r.push(token);
        assert(r@ =~= tokens.take(i + 1));
        i += 1;
    }
    assert(tokens.take(seq_len as int) =~= tokens);
    r
}

/// The input tokens from the end of the prompt on are the tokens that the model gives.
pub open spec fn shifted(token_ids: Seq<usize>, next: Seq<usize>, prompt_len: int) -> bool {
    forall|i: int|
        prompt_len - 1 <= i < token_ids.len() - 1 ==> token_ids[i + 1] == #[trigger] next[i]
}

/// The first position whose next token is not the one that the model gives.
pub fn shift_violation(token_ids: &[usize], next_token_ids: &[usize], prompt_len: usize) -> (r:
    Option<usize>)
    requires
        token_ids@.len() == next_token_ids@.len(),
        1 <= prompt_len <= token_ids@.len(),
    ensures
        r is None <==> shifted(token_ids@, next_token_ids@, prompt_len as int),
        r matches Some(i) ==> prompt_len - 1 <= i < token_ids@.len() - 1 && token_ids@[i + 1]
            != next_token_ids@[i as int] && forall|j: int|
            prompt_len - 1 <= j < i ==> token_ids@[j + 1] == #[trigger] next_token_ids@[j],
{
    let mut i = prompt_len - 1;
    while i < token_ids.len() - 1
        invariant
            token_ids@.len() == next_token_ids@.len(),
            1 <= prompt_len <= token_ids@.len(),
            prompt_len - 1 <= i <= token_ids@.len() - 1,
            forall|j: int|
                prompt_len - 1 <= j < i ==> token_ids@[j + 1] == #[trigger] next_token_ids@[j],
        decreases token_ids.len() - i,
    {
        if token_ids[i + 1] != next_token_ids[i] {
            assert(token_ids@[i + 1] != next_token_ids@[i as int]);
            return Some(i);
        }
        i += 1;
    }
    None
}

/// Where the tokens that the model gives are arguments of the maximum of its logits, and the input
/// tokens follow them, every generated token is the argument of the maximum of the logits before it.
pub proof fn lemma_greedy(
    token_ids: Seq<usize>,
    next: Seq<usize>,
    prompt_len: int,
    values: Seq<int>,
    seq_len: nat,
    vocab_size: nat,
    i: int,
)
    requires
        shifted(token_ids, next, prompt_len),
        prompt_len <= i < token_ids.len(),
        is_argmax(values, seq_len, i - 1, vocab_size, next[i - 1] as int),
    ensures
        is_argmax(values, seq_len, i - 1, vocab_size, token_ids[i] as int),
{
    assert(token_ids[(i - 1) + 1] == next[i - 1]);
}

} // verus!
