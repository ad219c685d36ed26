//! Numbers as they are stored in files: 64 bits each, lowest byte first.
use crate::field::le_bytes_value;
use vstd::prelude::*;

verus! {

/// The signed integer of 64 bits that stands for an unsigned one.
pub open spec fn signed_word(v: int) -> int {
    if v < 0x8000_0000_0000_0000 {
        v
    } else {
        v - 0x1_0000_0000_0000_0000
    }
}

/// The number that eight bytes stand for.
pub open spec fn word_at(bytes: Seq<u8>, i: int) -> int {
    signed_word(le_bytes_value(bytes.subrange(8 * i, 8 * i + 8)))
}

proof fn lemma_le_bound(bytes: Seq<u8>, n: nat)
    requires
        bytes.len() == n,
        n <= 8,
    ensures
        0 <= le_bytes_value(bytes) < vstd::arithmetic::power::pow(256, n),
    decreases n,
{
    vstd::arithmetic::power::lemma_pow0(256);
    if n > 0 {
        lemma_le_bound(bytes.skip(1), (n - 1) as nat);
        vstd::arithmetic::power::lemma_pow_adds(256, 1, (n - 1) as nat);
        vstd::arithmetic::power::lemma_pow1(256);
    }
}

proof fn lemma_pow_256()
    ensures
        vstd::arithmetic::power::pow(256, 8) == 0x1_0000_0000_0000_0000,
        forall|k: nat|
            k <= 8 ==> 1 <= #[trigger] vstd::arithmetic::power::pow(256, k)
                <= 0x1_0000_0000_0000_0000,
{
    vstd::arithmetic::power::lemma_pow0(256);
    reveal_with_fuel(vstd::arithmetic::power::pow, 10);
    assert(vstd::arithmetic::power::pow(256, 1) == 256);
    assert(vstd::arithmetic::power::pow(256, 2) == 0x1_0000);
    assert(vstd::arithmetic::power::pow(256, 3) == 0x100_0000);
    assert(vstd::arithmetic::power::pow(256, 4) == 0x1_0000_0000);
    assert(vstd::arithmetic::power::pow(256, 5) == 0x100_0000_0000);
    assert(vstd::arithmetic::power::pow(256, 6) == 0x1_0000_0000_0000);
    assert(vstd::arithmetic::power::pow(256, 7) == 0x100_0000_0000_0000);
    assert(vstd::arithmetic::power::pow(256, 8) == 0x1_0000_0000_0000_0000);
    assert forall|k: nat| k <= 8 implies 1 <= #[trigger] vstd::arithmetic::power::pow(256, k)
        <= 0x1_0000_0000_0000_0000 by {
        assert(k == 0 || k == 1 || k == 2 || k == 3 || k == 4 || k == 5 || k == 6 || k == 7 || k
            == 8);
    }
}

/// The numbers in a file's bytes: every eight bytes are one, and what is left at the end is ignored.
pub fn words_from_bytes(bytes: &[u8]) -> (r: Vec<i64>)
    ensures
        r@.len() == bytes@.len() / 8,
        forall|i: int| 0 <= i < r@.len() ==> #[trigger] r@[i] == word_at(bytes@, i),
{
    let count = bytes.len() / 8;
    let mut r: Vec<i64> = Vec::with_capacity(count);
    let mut i: usize = 0;
    while i < count
        invariant
            i <= count,
            count == bytes@.len() / 8,
            r@.len() == i,
            forall|k: int| 0 <= k < i ==> #[trigger] r@[k] == word_at(bytes@, k),
        decreases count - i,
    {
        assert(bytes.len() == bytes@.len());
        let ghost chunk = bytes@.subrange(8 * i, 8 * i + 8);
        let mut v: u64 = 0;
        let mut k: usize = 8;
        proof {
            lemma_pow_256();
            assert(chunk.skip(8) =~= Seq::<u8>::empty());
        }
        while k > 0
            invariant
                k <= 8,
                i < count,
                count == bytes@.len() / 8,
                bytes@.len() <= usize::MAX,
                chunk == bytes@.subrange(8 * i, 8 * i + 8),
                v == le_bytes_value(chunk.skip(k as int)),
            decreases k,
        {
            proof {
                lemma_pow_256();
                assert(chunk.skip(k - 1).skip(1) =~= chunk.skip(k as int));
                assert(chunk.skip(k - 1)[0] == chunk[k - 1]);
                lemma_le_bound(chunk.skip(k - 1), (8 - (k - 1)) as nat);
            }
            v = bytes[8 * i + k - 1] as u64 + 256 * v;
            k -= 1;
        }
        assert(chunk.skip(0) =~= chunk);
        let word = if v < 0x8000_0000_0000_0000 {
            v as i64
        } else {
            (v as i128 - 0x1_0000_0000_0000_0000) as i64
        };
        r.push(word);
        i += 1;
    }
    r
}

/// The bytes of numbers, eight for each.
pub fn words_to_bytes(words: &[i64]) -> (r: Vec<u8>)
    requires
        8 * words@.len() <= usize::MAX,
    ensures
        r@.len() == 8 * words@.len(),
        forall|i: int| 0 <= i < words@.len() ==> word_at(r@, i) == #[trigger] words@[i],
{
    let mut r: Vec<u8> = Vec::with_capacity(8 * words.len());
    let mut i: usize = 0;
    while i < words.len()
        invariant
            i <= words@.len(),
            r@.len() == 8 * i,
            forall|k: int| 0 <= k < i ==> word_at(r@, k) == #[trigger] words@[k],
        decreases words.len() - i,
    {
        let w = words[i];
        let v: u64 = if w >= 0 {
            w as u64
        } else {
            (w as i128 + 0x1_0000_0000_0000_0000) as u64
        };
        let ghost before = r@;
        let mut rest = v;
        let mut k: usize = 0;
        proof {
            lemma_pow_256();
            assert(r@.skip(8 * i) =~= Seq::<u8>::empty());
            vstd::arithmetic::power::lemma_pow0(256);
        }
        while k < 8
            invariant
                k <= 8,
                before.len() == 8 * i,
                r@.len() == 8 * i + k,
                r@.take(8 * i) == before,
                v == le_bytes_value(r@.skip(8 * i)) + vstd::arithmetic::power::pow(256, k as nat)
                    * rest,
                rest * vstd::arithmetic::power::pow(256, k as nat) < 0x1_0000_0000_0000_0000,
            decreases 8 - k,
        {
            let ghost old_r = r@;
            let ghost p = vstd::arithmetic::power::pow(256, k as nat);
            let low = (rest % 256) as u8;
            proof {
                lemma_pow_256();
                vstd::arithmetic::power::lemma_pow_adds(256, k as nat, 1);
                vstd::arithmetic::power::lemma_pow1(256);
                lemma_le_push(old_r.skip(8 * i), low);
                let (q, m) = (rest as int / 256, rest as int % 256);
                assert(rest == 256 * q + m);
                assert(p * rest == p * m + (p * 256) * q) by (nonlinear_arith)
                    requires
                        rest == 256 * q + m,
                ;
                assert(q * (p * 256) <= rest * p) by (nonlinear_arith)
                    requires
                        rest == 256 * q + m,
                        m >= 0,
                        p >= 1,
                ;
            }
            r.push(low);
            rest = rest / 256;
            k += 1;
            proof {
                assert(r@.skip(8 * i) =~= old_r.skip(8 * i).push(low));
                assert(r@.take(8 * i) =~= before);
            }
        }
        proof {
            lemma_pow_256();
            let p = vstd::arithmetic::power::pow(256, 8);
            assert(rest == 0) by (nonlinear_arith)
                requires
                    rest * p < p,
                    rest >= 0,
                    p > 0,
            ;
            assert(r@.skip(8 * i) =~= r@.subrange(8 * i, 8 * i + 8));
            assert forall|k: int| 0 <= k < i + 1 implies word_at(r@, k) == #[trigger] words@[k] by {
                if k < i {
                    assert(r@.subrange(8 * k, 8 * k + 8) =~= before.subrange(8 * k, 8 * k + 8)) by {
                        assert forall|j: int| 0 <= j < 8 * i implies r@[j] == before[j] by {
                            assert(r@.take(8 * i)[j] == before[j]);
                        }
                    }
                    assert(word_at(before, k) == words@[k]);
                }
            }
        }
        i += 1;
    }
    r
}

/// A further byte counts as much as the bytes before it can, once more.
proof fn lemma_le_push(s: Seq<u8>, b: u8)
    ensures
        le_bytes_value(s.push(b)) == le_bytes_value(s) + vstd::arithmetic::power::pow(256, s.len())
            * b,
    decreases s.len(),
{
    vstd::arithmetic::power::lemma_pow0(256);
    if s.len() == 0 {
        assert(s.push(b).skip(1) =~= Seq::<u8>::empty());
        assert(le_bytes_value(Seq::<u8>::empty()) == 0);
    } else {
        lemma_le_push(s.skip(1), b);
        assert(s.push(b).skip(1) =~= s.skip(1).push(b));
        let n = (s.len() - 1) as nat;
        vstd::arithmetic::power::lemma_pow_adds(256, 1, n);
        vstd::arithmetic::power::lemma_pow1(256);
        let p = vstd::arithmetic::power::pow(256, n);
        assert(256 * (p * b) == (256 * p) * b) by (nonlinear_arith);
    }
}

/// Numbers that are written and read are the numbers.
pub proof fn lemma_words_round_trip(words: Seq<i64>, bytes: Seq<u8>, read: Seq<i64>)
    requires
        bytes.len() == 8 * words.len(),
        forall|i: int| 0 <= i < words.len() ==> word_at(bytes, i) == #[trigger] words[i],
        read.len() == bytes.len() / 8,
        forall|i: int| 0 <= i < read.len() ==> #[trigger] read[i] == word_at(bytes, i),
    ensures
        read == words,
{
    assert(read =~= words);
}

} // verus!
