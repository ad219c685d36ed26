//! Random weights of a size that keeps the activations of a model in range.
use crate::arith::{get_n, num_vars};
use crate::field::{modulus, vals, CryptoField, Fr};
use crate::math::two_to;
use crate::witness::{dense_value, DataType, Role, Witness};
use rand::{Rng, SeedableRng};
use vstd::arithmetic::power2::pow2;
use vstd::prelude::*;

verus! {

/// A random number generator that is seeded.
#[verifier::external_type_specification]
#[verifier::external_body]
pub struct ExStdRng(rand::rngs::StdRng);

/// `rand::SeedableRng::seed_from_u64` on `rand::rngs::StdRng`: some generator, started from a seed.
#[verifier::external_body]
pub(crate) fn seeded(seed: u64) -> rand::rngs::StdRng {
    rand::rngs::StdRng::seed_from_u64(seed)
}

/// `rand::Rng::gen` on `rand::rngs::StdRng`: some word of 32 bits.
#[verifier::external_body]
fn next_word(rng: &mut rand::rngs::StdRng) -> u32 {
    rng.gen::<u32>()
}

/// `rand::Rng::gen` on `rand::thread_rng()`: some word of 32 bits.
#[verifier::external_body]
fn thread_word() -> u32 {
    rand::thread_rng().gen::<u32>()
}

/// Words brought into the range from `-half_range` to `half_range`.
pub open spec fn signed_table(words: Seq<u32>, half_range: u32) -> Seq<int> {
    words.map_values(
        |w: u32| (w as int % (2 * half_range + 1) - half_range as int) % modulus(),
    )
}

/// Words brought into the range from `-half_range` to `half_range`.
pub fn signed_weights(words: &[u32], half_range: u32) -> (r: Vec<Fr>)
    requires
        2 * half_range + 1 <= u32::MAX,
    ensures
        vals(r@) =~= signed_table(words@, half_range),
{
    let range = 2 * half_range + 1;
    let mut r: Vec<Fr> = Vec::with_capacity(words.len());
    let mut i: usize = 0;
    while i < words.len()
        invariant
            i <= words@.len(),
            range == 2 * half_range + 1,
            r@.len() == i,
            forall|k: int|
                0 <= k < i ==> (#[trigger] r@[k])@ == signed_table(words@, half_range)[k],
        decreases words.len() - i,
    {
        let v = (words[i] % range) as i128 - half_range as i128;
        r.push(Fr::from_i128(v));
        i += 1;
    }
    r
}

/// Words brought within 32 of one, with `sf_log` fractional bits.
pub open spec fn norm_table(words: Seq<u32>, sf_log: nat) -> Seq<int> {
    words.map_values(|w: u32| (pow2(sf_log) + w as int % 65 - 32) % modulus())
}

/// Words brought within 32 of one, with `sf_log` fractional bits.
pub fn norm_weights(words: &[u32], sf_log: usize) -> (r: Vec<Fr>)
    requires
        sf_log < 64,
    ensures
        vals(r@) =~= norm_table(words@, sf_log as nat),
{
    let one = crate::arith::power_of_two(sf_log) as i128;
    let mut r: Vec<Fr> = Vec::with_capacity(words.len());
    let mut i: usize = 0;
    while i < words.len()
        invariant
            i <= words@.len(),
            one == pow2(sf_log as nat),
            one <= 0xffff_ffff_ffff_ffff,
            r@.len() == i,
            forall|k: int|
                0 <= k < i ==> (#[trigger] r@[k])@ == norm_table(words@, sf_log as nat)[k],
        decreases words.len() - i,
    {
        let noise = (words[i] % 65) as i128 - 32;
        r.push(Fr::from_i128(one + noise));
        i += 1;
    }
    r
}

/// Words brought below `limit`.
pub open spec fn small_table(words: Seq<u32>, limit: u32) -> Seq<int> {
    words.map_values(|w: u32| (w % limit) as int % modulus())
}

/// Words brought below `limit`.
pub fn small_weights(words: &[u32], limit: u32) -> (r: Vec<Fr>)
    requires
        limit > 0,
    ensures
        vals(r@) =~= small_table(words@, limit),
{
    let mut r: Vec<Fr> = Vec::with_capacity(words.len());
    let mut i: usize = 0;
    while i < words.len()
        invariant
            i <= words@.len(),
            limit > 0,
            r@.len() == i,
            forall|k: int| 0 <= k < i ==> (#[trigger] r@[k])@ == small_table(words@, limit)[k],
        decreases words.len() - i,
    {
        r.push(Fr::from_i128((words[i] % limit) as i128));
        i += 1;
    }
    r
}

/// Some words from a seeded generator.
fn draw(rng: &mut rand::rngs::StdRng, size: usize) -> (r: Vec<u32>)
    ensures
        r@.len() == size,
{
    let mut r: Vec<u32> = Vec::with_capacity(size);
    let mut i: usize = 0;
    while i < size
        invariant
            i <= size,
            r@.len() == i,
        decreases size - i,
    {
        r.push(next_word(rng));
        i += 1;
    }
    r
}

/// Some words from the generator of the thread.
fn draw_thread(size: usize) -> (r: Vec<u32>)
    ensures
        r@.len() == size,
{
    let mut r: Vec<u32> = Vec::with_capacity(size);
    let mut i: usize = 0;
    while i < size
        invariant
            i <= size,
            r@.len() == i,
        decreases size - i,
    {
        r.push(thread_word());
        i += 1;
    }
    r
}

/// The table is that of some words, brought into the range from `-half_range` to `half_range`.
pub open spec fn is_signed(table: Seq<int>, size: nat, half_range: u32) -> bool {
    exists|words: Seq<u32>|
        words.len() == size && table == #[trigger] signed_table(words, half_range)
}

/// The table is that of some words, brought close to one.
pub open spec fn is_norm(table: Seq<int>, size: nat, sf_log: nat) -> bool {
    exists|words: Seq<u32>| words.len() == size && table == #[trigger] norm_table(words, sf_log)
}

/// The table is that of some words, brought below `limit`.
pub open spec fn is_below(table: Seq<int>, size: nat, limit: u32) -> bool {
    exists|words: Seq<u32>| words.len() == size && table == #[trigger] small_table(words, limit)
}

/// Every entry of a table of signed weights is the field element of an integer in range.
pub proof fn lemma_signed_range(table: Seq<int>, size: nat, half_range: u32, i: int)
    requires
        is_signed(table, size, half_range),
        0 <= i < size,
    ensures
        exists|v: int| -half_range <= v <= half_range && table[i] == #[trigger] (v % modulus()),
{
    let words = choose|words: Seq<u32>|
        words.len() == size && table == #[trigger] signed_table(words, half_range);
    let v = words[i] as int % (2 * half_range + 1) - half_range as int;
    assert(table[i] == v % modulus());
}

/// Random field elements of signed integers.
pub fn gen_signed(rng: &mut rand::rngs::StdRng, size: usize, half_range: u32) -> (r: Vec<Fr>)
    requires
        2 * half_range + 1 <= u32::MAX,
    ensures
        is_signed(vals(r@), size as nat, half_range),
{
    let words = draw(rng, size);
    let r = signed_weights(words.as_slice(), half_range);
    assert(vals(r@) == signed_table(words@, half_range));
    r
}

/// Random field elements close to one.
pub fn gen_norm_weight(rng: &mut rand::rngs::StdRng, size: usize, sf_log: usize) -> (r: Vec<Fr>)
    requires
        sf_log < 64,
    ensures
        is_norm(vals(r@), size as nat, sf_log as nat),
{
    let words = draw(rng, size);
    let r = norm_weights(words.as_slice(), sf_log);
    assert(vals(r@) == norm_table(words@, sf_log as nat));
    r
}

/// Random field elements of integers below `limit`.
pub fn generate_random_field_vec(size: usize, limit: u32) -> (r: Vec<Fr>)
    requires
        limit > 0,
    ensures
        is_below(vals(r@), size as nat, limit),
{
    let words = draw_thread(size);
    let r = small_weights(words.as_slice(), limit);
    assert(vals(r@) == small_table(words@, limit));
    r
}

/// A constant of the given shape with the given table.
pub open spec fn is_constant(
    w: Witness,
    shape: Seq<usize>,
    sf: usize,
    table: Seq<int>,
) -> bool {
    w@ == dense_value(shape, table, DataType::Float, sf, Role::Constant)
}

/// A constant of the given shape with signed weights.
pub open spec fn has_signed(w: Witness, shape: Seq<usize>, half_range: u32, sf: usize) -> bool {
    exists|table: Seq<int>|
        #[trigger] is_constant(w, shape, sf, table) && is_signed(
            table,
            pow2(num_vars(shape)),
            half_range,
        )
}

/// A constant of the given shape with weights close to one.
pub open spec fn has_norm(w: Witness, shape: Seq<usize>, sf: usize) -> bool {
    exists|table: Seq<int>|
        #[trigger] is_constant(w, shape, sf, table) && is_norm(
            table,
            pow2(num_vars(shape)),
            sf as nat,
        )
}

/// A constant of the given shape with weights below `limit`.
pub open spec fn has_below(w: Witness, shape: Seq<usize>, limit: u32, sf: usize) -> bool {
    exists|table: Seq<int>|
        #[trigger] is_constant(w, shape, sf, table) && is_below(
            table,
            pow2(num_vars(shape)),
            limit,
        )
}

/// A constant with random signed weights.
pub fn signed_tensor(
    rng: &mut rand::rngs::StdRng,
    shape: Vec<usize>,
    half_range: u32,
    sf: usize,
) -> (r: Witness)
    requires
        num_vars(shape@) < usize::BITS,
        2 * half_range + 1 <= u32::MAX,
    ensures
        has_signed(r, shape@, half_range, sf),
{
    let size = two_to(get_n(shape.as_slice()));
    let data = gen_signed(rng, size, half_range);
    let ghost table = vals(data@);
    let ghost dims = shape@;
    let r = Witness::new(shape, data, DataType::Float, sf, Role::Constant);
    assert(is_constant(r, dims, sf, table));
    r
}

/// A constant with random weights close to one.
pub fn norm_tensor(rng: &mut rand::rngs::StdRng, shape: Vec<usize>, sf: usize) -> (r: Witness)
    requires
        num_vars(shape@) < usize::BITS,
        sf < 64,
    ensures
        has_norm(r, shape@, sf),
{
    let size = two_to(get_n(shape.as_slice()));
    let data = gen_norm_weight(rng, size, sf);
    let ghost table = vals(data@);
    let ghost dims = shape@;
    let r = Witness::new(shape, data, DataType::Float, sf, Role::Constant);
    assert(is_constant(r, dims, sf, table));
    r
}

/// A constant with random weights below `limit`.
pub fn small_tensor(shape: Vec<usize>, limit: u32, sf: usize) -> (r: Witness)
    requires
        num_vars(shape@) < usize::BITS,
        limit > 0,
    ensures
        has_below(r, shape@, limit, sf),
{
    let size = two_to(get_n(shape.as_slice()));
    let data = generate_random_field_vec(size, limit);
    let ghost table = vals(data@);
    let ghost dims = shape@;
    let r = Witness::new(shape, data, DataType::Float, sf, Role::Constant);
    assert(is_constant(r, dims, sf, table));
    r
}

} // verus!
